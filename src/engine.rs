//! The executor's decisions: which partitions go through OverlayFS, with
//! which layers, and which modules the magic-mount pass receives.
use vstd::prelude::*;
use crate::bytes::{
    bytes_eq, contains_bytes, copy_bytes, insert_sorted, join, join_path, push_bytes,
    strictly_sorted, views, SLASH,
};
use crate::defs::{target_partition_list, target_partitions, Config, Mode};

verus! {

/// An enabled module as found on disk.
pub struct ActiveModule {
    pub id: Vec<u8>,
    pub content_path: Vec<u8>,
    pub mode: Mode,
    /// Whether `content_path` exists.
    pub exists: bool,
    /// Partitions `p` for which `content_path/<p>` is a directory with at
    /// least one entry.
    pub dirs: Vec<Vec<u8>>,
}

/// The modules that touch one partition, ids ascending.
pub struct PartitionGroup {
    pub partition: Vec<u8>,
    /// Content roots of the modules, ids ascending.
    pub modules: Vec<Vec<u8>>,
    /// Whether a `magic` module touches the partition.
    pub force_magic: bool,
}

/// The decisions of a run taken before any mount is made.
pub struct RunPlan {
    /// Indices of the active modules, ids ascending, one per id.
    pub order: Vec<usize>,
    /// One group per partition that some module touches, in partition order.
    pub groups: Vec<PartitionGroup>,
}

/// Whether the module takes part in partition `p`.
pub open spec fn touches(m: ActiveModule, p: Seq<u8>) -> bool {
    m.exists && views(m.dirs@).contains(p)
}

/// The modules at the given indices.
pub open spec fn pick(ms: Seq<ActiveModule>, order: Seq<usize>) -> Seq<ActiveModule> {
    order.map_values(|k: usize| ms[k as int])
}

pub open spec fn ids(s: Seq<ActiveModule>) -> Seq<Seq<u8>> {
    s.map_values(|m: ActiveModule| m.id@)
}

/// `order` lists each id of `ms` once, ids ascending.
pub open spec fn ascending_order(ms: Seq<ActiveModule>, order: Seq<usize>) -> bool {
    &&& forall|j: int| 0 <= j < order.len() ==> (#[trigger] order[j]) < ms.len()
    &&& strictly_sorted(ids(pick(ms, order)))
    &&& forall|i: int| 0 <= i < ms.len() ==> ids(pick(ms, order)).contains(#[trigger] ms[i].id@)
}

/// Content roots of the modules of `s` that touch `p`, in order.
pub open spec fn group_paths(s: Seq<ActiveModule>, p: Seq<u8>) -> Seq<Seq<u8>>
    decreases s.len(),
{
    if s.len() == 0 {
        seq![]
    } else {
        let rest = group_paths(s.drop_last(), p);
        if touches(s.last(), p) {
            rest.push(s.last().content_path@)
        } else {
            rest
        }
    }
}

/// Some `magic` module of `s` touches `p`.
pub open spec fn forced(s: Seq<ActiveModule>, p: Seq<u8>) -> bool {
    exists|i: int| 0 <= i < s.len() && touches(#[trigger] s[i], p) && s[i].mode == Mode::Magic
}

/// The partition groups: (partition, content roots, forced to magic).
pub open spec fn groups(s: Seq<ActiveModule>, parts: Seq<Seq<u8>>) -> Seq<
    (Seq<u8>, Seq<Seq<u8>>, bool),
>
    decreases parts.len(),
{
    if parts.len() == 0 {
        seq![]
    } else {
        let rest = groups(s, parts.drop_last());
        let g = group_paths(s, parts.last());
        if g.len() > 0 {
            rest.push((parts.last(), g, forced(s, parts.last())))
        } else {
            rest
        }
    }
}

pub open spec fn group_views(gs: Seq<PartitionGroup>) -> Seq<(Seq<u8>, Seq<Seq<u8>>, bool)> {
    gs.map_values(|g: PartitionGroup| (g.partition@, views(g.modules@), g.force_magic))
}

fn ascending(ms: &Vec<ActiveModule>) -> (order: Vec<usize>)
    ensures
        ascending_order(ms@, order@),
{
    let mut sorted_ids: Vec<Vec<u8>> = Vec::new();
    let mut i: usize = 0;
    while i < ms.len()
        invariant
            i <= ms@.len(),
            strictly_sorted(views(sorted_ids@)),
            views(sorted_ids@).to_set() == Set::new(
                |id: Seq<u8>| exists|k: int| 0 <= k < i && (#[trigger] ms@[k]).id@ == id,
            ),
        decreases ms.len() - i,
    {
        let ghost before = views(sorted_ids@).to_set();
        insert_sorted(&mut sorted_ids, copy_bytes(ms[i].id.as_slice()));
        proof {
            assert(views(sorted_ids@).to_set() =~= Set::new(
                |id: Seq<u8>| exists|k: int| 0 <= k < i + 1 && (#[trigger] ms@[k]).id@ == id,
            )) by {
                assert forall|id: Seq<u8>|
                    (exists|k: int| 0 <= k < i + 1 && (#[trigger] ms@[k]).id@ == id) implies before.insert(
                    ms@[i as int].id@,
                ).contains(id) by {
                    let k = choose|k: int| 0 <= k < i + 1 && (#[trigger] ms@[k]).id@ == id;
                    if k < i {
                        assert(before.contains(id));
                    }
                }
            }
        }
        i = i + 1;
    }
    let mut order: Vec<usize> = Vec::new();
    let mut j: usize = 0;
    while j < sorted_ids.len()
        invariant
            j <= sorted_ids@.len(),
            i == ms@.len(),
            strictly_sorted(views(sorted_ids@)),
            views(sorted_ids@).to_set() == Set::new(
                |id: Seq<u8>| exists|k: int| 0 <= k < i && (#[trigger] ms@[k]).id@ == id,
            ),
            order@.len() == j,
            forall|t: int| 0 <= t < j ==> (#[trigger] order@[t]) < ms@.len(),
            forall|t: int| 0 <= t < j ==> ms@[order@[t] as int].id@ == #[trigger] views(sorted_ids@)[t],
        decreases sorted_ids.len() - j,
    {
        proof {
            assert(views(sorted_ids@).contains(views(sorted_ids@)[j as int]));
            assert(views(sorted_ids@).to_set().contains(views(sorted_ids@)[j as int]));
        }
        let mut k: usize = 0;
        while k < ms.len() && !bytes_eq(ms[k].id.as_slice(), sorted_ids[j].as_slice())
            invariant
                k <= ms@.len(),
                j < sorted_ids@.len(),
                i == ms@.len(),
                sorted_ids@[j as int]@ == views(sorted_ids@)[j as int],
                exists|t: int| 0 <= t < i && (#[trigger] ms@[t]).id@ == views(sorted_ids@)[j as int],
                forall|t: int| 0 <= t < k ==> (#[trigger] ms@[t]).id@ != views(sorted_ids@)[j as int],
            decreases ms.len() - k,
        {
            k = k + 1;
        }
        order.push(k);
        j = j + 1;
    }
    proof {
        let s = ids(pick(ms@, order@));
        assert(s =~= views(sorted_ids@));
        assert forall|t: int| 0 <= t < ms@.len() implies s.contains(#[trigger] ms@[t].id@) by {
            assert(views(sorted_ids@).to_set().contains(ms@[t].id@));
        }
    }
    order
}

fn group_for(ms: &Vec<ActiveModule>, order: &Vec<usize>, part: &Vec<u8>) -> (r: PartitionGroup)
    requires
        forall|j: int| 0 <= j < order@.len() ==> (#[trigger] order@[j]) < ms@.len(),
    ensures
        r.partition@ == part@,
        views(r.modules@) == group_paths(pick(ms@, order@), part@),
        r.force_magic == forced(pick(ms@, order@), part@),
{
    let ghost s = pick(ms@, order@);
    let mut modules: Vec<Vec<u8>> = Vec::new();
    let mut force_magic = false;
    let mut j: usize = 0;
    while j < order.len()
        invariant
            j <= order@.len(),
            s == pick(ms@, order@),
            forall|t: int| 0 <= t < order@.len() ==> (#[trigger] order@[t]) < ms@.len(),
            views(modules@) == group_paths(s.subrange(0, j as int), part@),
            force_magic == forced(s.subrange(0, j as int), part@),
        decreases order.len() - j,
    {
        let m = &ms[order[j]];
        let ghost pre = s.subrange(0, j as int);
        let ghost cur = s.subrange(0, j + 1);
        assert(cur.drop_last() =~= pre);
        assert(cur.last() == *m);
        let has = contains_bytes(&m.dirs, part.as_slice());
        proof {
            if has {
                let t = choose|t: int| 0 <= t < m.dirs@.len() && (#[trigger] m.dirs@[t])@ == part@;
                assert(views(m.dirs@)[t] == part@);
            } else {
                assert forall|t: int| 0 <= t < m.dirs@.len() implies views(m.dirs@)[t] != part@ by {
                    assert(views(m.dirs@)[t] == m.dirs@[t]@);
                }
            }
        }
        let touching = m.exists && has;
        if touching {
            let p = copy_bytes(m.content_path.as_slice());
            modules.push(p);
            assert(views(modules@) =~= group_paths(pre, part@).push(p@));
        }
        proof {
            if forced(cur, part@) {
                let t = choose|t: int|
                    0 <= t < cur.len() && touches(#[trigger] cur[t], part@) && cur[t].mode
                        == Mode::Magic;
                if t < j {
                    assert(pre[t] == cur[t]);
                }
            }
            if forced(pre, part@) {
                let t = choose|t: int|
                    0 <= t < pre.len() && touches(#[trigger] pre[t], part@) && pre[t].mode
                        == Mode::Magic;
                assert(cur[t] == pre[t]);
            }
            if touching && m.mode == Mode::Magic {
                assert(touches(cur[j as int], part@));
            }
        }
        if touching && m.mode == Mode::Magic {
            force_magic = true;
        }
        j = j + 1;
    }
    assert(s.subrange(0, j as int) =~= s);
    PartitionGroup { partition: copy_bytes(part.as_slice()), modules, force_magic }
}

/// Takes the decisions of a run before any mount: modules in ascending id
/// order, grouped by the partitions they touch, and each partition that a
/// `magic` module touches marked for the magic pass.
pub fn run(active_modules: &Vec<ActiveModule>, config: &Config) -> (r: RunPlan)
    ensures
        ascending_order(active_modules@, r.order@),
        group_views(r.groups@) == groups(
            pick(active_modules@, r.order@),
            target_partitions(views(config.partitions@)),
        ),
{
    let order = ascending(active_modules);
    let parts = target_partition_list(&config.partitions);
    let ghost s = pick(active_modules@, order@);
    let ghost ps = views(parts@);
    let mut gs: Vec<PartitionGroup> = Vec::new();
    let mut k: usize = 0;
    while k < parts.len()
        invariant
            k <= parts@.len(),
            ps == views(parts@),
            s == pick(active_modules@, order@),
            ascending_order(active_modules@, order@),
            group_views(gs@) == groups(s, ps.subrange(0, k as int)),
        decreases parts.len() - k,
    {
        assert(ps.subrange(0, k + 1).drop_last() =~= ps.subrange(0, k as int));
        assert(ps.subrange(0, k + 1).last() == parts@[k as int]@);
        let g = group_for(active_modules, &order, &parts[k]);
        if g.modules.len() > 0 {
            let ghost before = group_views(gs@);
            let ghost gv = (g.partition@, views(g.modules@), g.force_magic);
            gs.push(g);
            assert(group_views(gs@) =~= before.push(gv));
        }
        k = k + 1;
    }
    assert(ps.subrange(0, k as int) =~= ps);
    RunPlan { order, groups: gs }
}

/// The target of a partition's overlay: `/<partition>`.
pub open spec fn overlay_target(p: Seq<u8>) -> Seq<u8> {
    seq![SLASH] + p
}

/// The layers handed to the overlay driver: the group's modules reversed
/// (ids descending, the highest first), each joined with the partition.
pub open spec fn overlay_layers_of(modules: Seq<Seq<u8>>, p: Seq<u8>) -> Seq<Seq<u8>> {
    modules.reverse().map_values(|m: Seq<u8>| join(m, p))
}

/// The overlay request of a group: its target and its layers.
pub fn overlay_request(group: &PartitionGroup) -> (r: (Vec<u8>, Vec<Vec<u8>>))
    ensures
        r.0@ == overlay_target(group.partition@),
        views(r.1@) == overlay_layers_of(views(group.modules@), group.partition@),
{
    let mut target: Vec<u8> = Vec::new();
    target.push(SLASH);
    push_bytes(&mut target, group.partition.as_slice());
    assert(target@ =~= overlay_target(group.partition@));
    let ghost ms = views(group.modules@);
    let mut layers: Vec<Vec<u8>> = Vec::new();
    let mut i: usize = group.modules.len();
    while i > 0
        invariant
            i <= group.modules@.len(),
            ms == views(group.modules@),
            views(layers@) == ms.subrange(i as int, ms.len() as int).reverse().map_values(
                |m: Seq<u8>| join(m, group.partition@),
            ),
        decreases i,
    {
        i = i - 1;
        let l = join_path(group.modules[i].as_slice(), group.partition.as_slice());
        let ghost before = views(layers@);
        layers.push(l);
        assert(views(layers@) =~= ms.subrange(i as int, ms.len() as int).reverse().map_values(
            |m: Seq<u8>| join(m, group.partition@),
        )) by {
            assert(views(layers@) =~= before.push(l@));
            assert(ms.subrange(i as int, ms.len() as int).reverse() =~= ms.subrange(
                i + 1,
                ms.len() as int,
            ).reverse().push(ms[i as int]));
        }
    }
    assert(ms.subrange(0, ms.len() as int) =~= ms);
    (target, layers)
}

/// A partition goes through the magic pass: forced, or its overlay failed.
pub open spec fn demoted(gs: Seq<(Seq<u8>, Seq<Seq<u8>>, bool)>, failed: Seq<bool>, g: int) -> bool {
    gs[g].2 || failed[g]
}

/// A content root that belongs to a group of the magic pass.
pub open spec fn in_magic_pass(
    gs: Seq<(Seq<u8>, Seq<Seq<u8>>, bool)>,
    failed: Seq<bool>,
    path: Seq<u8>,
) -> bool {
    exists|g: int| 0 <= g < gs.len() && demoted(gs, failed, g) && (#[trigger] gs[g]).1.contains(path)
}

/// The magic pass's modules, ids ascending.
pub open spec fn magic_pass(
    s: Seq<ActiveModule>,
    gs: Seq<(Seq<u8>, Seq<Seq<u8>>, bool)>,
    failed: Seq<bool>,
) -> Seq<Seq<u8>>
    decreases s.len(),
{
    if s.len() == 0 {
        seq![]
    } else {
        let rest = magic_pass(s.drop_last(), gs, failed);
        if in_magic_pass(gs, failed, s.last().content_path@) {
            rest.push(s.last().content_path@)
        } else {
            rest
        }
    }
}

/// The modules for the magic pass, after the overlay pass: every module of a
/// group that was forced to magic or whose overlay failed (`overlay_failed[g]`
/// for `plan.groups[g]`), ids ascending.
pub fn magic_modules(active_modules: &Vec<ActiveModule>, plan: &RunPlan, overlay_failed: &Vec<bool>) -> (r:
    Vec<Vec<u8>>)
    requires
        overlay_failed@.len() == plan.groups@.len(),
        forall|j: int| 0 <= j < plan.order@.len() ==> (#[trigger] plan.order@[j]) < active_modules@.len(),
    ensures
        views(r@) == magic_pass(
            pick(active_modules@, plan.order@),
            group_views(plan.groups@),
            overlay_failed@,
        ),
{
    let ghost s = pick(active_modules@, plan.order@);
    let ghost gs = group_views(plan.groups@);
    let mut r: Vec<Vec<u8>> = Vec::new();
    let mut j: usize = 0;
    while j < plan.order.len()
        invariant
            j <= plan.order@.len(),
            s == pick(active_modules@, plan.order@),
            gs == group_views(plan.groups@),
            overlay_failed@.len() == plan.groups@.len(),
            forall|t: int| 0 <= t < plan.order@.len() ==> (#[trigger] plan.order@[t]) < active_modules@.len(),
            views(r@) == magic_pass(s.subrange(0, j as int), gs, overlay_failed@),
        decreases plan.order.len() - j,
    {
        let path = &active_modules[plan.order[j]].content_path;
        assert(s.subrange(0, j + 1).drop_last() =~= s.subrange(0, j as int));
        assert(s.subrange(0, j + 1).last().content_path@ == path@);
        let mut found = false;
        let mut g: usize = 0;
        while g < plan.groups.len() && !found
            invariant
                g <= plan.groups@.len(),
                gs == group_views(plan.groups@),
                overlay_failed@.len() == plan.groups@.len(),
                found ==> in_magic_pass(gs, overlay_failed@, path@),
                !found ==> forall|t: int|
                    0 <= t < g ==> !(demoted(gs, overlay_failed@, t) && (#[trigger] gs[t]).1.contains(
                        path@,
                    )),
            decreases plan.groups.len() - g + (if found { 0int } else { 1int }),
        {
            let grp = &plan.groups[g];
            assert(gs[g as int] == (grp.partition@, views(grp.modules@), grp.force_magic));
            if grp.force_magic || overlay_failed[g] {
                let c = contains_bytes(&grp.modules, path.as_slice());
                proof {
                    if c {
                        let t = choose|t: int| 0 <= t < grp.modules@.len() && (#[trigger] grp.modules@[t])@ == path@;
                        assert(views(grp.modules@)[t] == path@);
                    } else {
                        assert forall|t: int| 0 <= t < grp.modules@.len() implies views(grp.modules@)[t] != path@ by {
                            assert(views(grp.modules@)[t] == grp.modules@[t]@);
                        }
                    }
                }
                if c {
                    found = true;
                }
            }
            if !found {
                g = g + 1;
            }
        }
        if found {
            let p = copy_bytes(path.as_slice());
            let ghost before = views(r@);
            r.push(p);
            assert(views(r@) =~= before.push(p@));
        }
        j = j + 1;
    }
    assert(s.subrange(0, j as int) =~= s);
    r
}

proof fn lemma_group_entry(s: Seq<ActiveModule>, parts: Seq<Seq<u8>>, g: int)
    requires
        0 <= g < groups(s, parts).len(),
    ensures
        groups(s, parts)[g].1 == group_paths(s, groups(s, parts)[g].0),
        groups(s, parts)[g].2 == forced(s, groups(s, parts)[g].0),
    decreases parts.len(),
{
    if parts.len() > 0 {
        let rest = groups(s, parts.drop_last());
        if g < rest.len() {
            lemma_group_entry(s, parts.drop_last(), g);
        }
    }
}

proof fn lemma_group_has(s: Seq<ActiveModule>, p: Seq<u8>, j: int)
    requires
        0 <= j < s.len(),
        touches(s[j], p),
    ensures
        group_paths(s, p).contains(s[j].content_path@),
    decreases s.len(),
{
    if j < s.len() - 1 {
        assert(s.drop_last()[j] == s[j]);
        lemma_group_has(s.drop_last(), p, j);
        let k = choose|k: int| 0 <= k < group_paths(s.drop_last(), p).len() && group_paths(s.drop_last(), p)[k] == s[j].content_path@;
        if touches(s.last(), p) {
            assert(group_paths(s, p)[k] == s[j].content_path@);
        }
    } else {
        assert(group_paths(s, p).last() == s[j].content_path@);
    }
}

proof fn lemma_magic_pass_has(
    s: Seq<ActiveModule>,
    gs: Seq<(Seq<u8>, Seq<Seq<u8>>, bool)>,
    failed: Seq<bool>,
    j: int,
)
    requires
        0 <= j < s.len(),
        in_magic_pass(gs, failed, s[j].content_path@),
    ensures
        magic_pass(s, gs, failed).contains(s[j].content_path@),
    decreases s.len(),
{
    if j < s.len() - 1 {
        assert(s.drop_last()[j] == s[j]);
        lemma_magic_pass_has(s.drop_last(), gs, failed, j);
        let rest = magic_pass(s.drop_last(), gs, failed);
        let k = choose|k: int| 0 <= k < rest.len() && rest[k] == s[j].content_path@;
        if in_magic_pass(gs, failed, s.last().content_path@) {
            assert(magic_pass(s, gs, failed)[k] == s[j].content_path@);
        }
    } else {
        assert(magic_pass(s, gs, failed).last() == s[j].content_path@);
    }
}

/// Magic propagation: when a `magic` module touches the partition of a
/// group, the group is forced to magic (so it never gets an overlay), and
/// every module that touches that partition, whatever its own mode, goes to
/// the magic pass, whatever the overlay pass reported.
pub proof fn lemma_magic_propagation(
    s: Seq<ActiveModule>,
    parts: Seq<Seq<u8>>,
    failed: Seq<bool>,
    g: int,
    i: int,
)
    requires
        0 <= g < groups(s, parts).len(),
        failed.len() == groups(s, parts).len(),
        0 <= i < s.len(),
        touches(s[i], groups(s, parts)[g].0),
        s[i].mode == Mode::Magic,
    ensures
        groups(s, parts)[g].2,
        forall|j: int|
            0 <= j < s.len() && touches(#[trigger] s[j], groups(s, parts)[g].0) ==> magic_pass(
                s,
                groups(s, parts),
                failed,
            ).contains(s[j].content_path@),
{
    let gs = groups(s, parts);
    let p = gs[g].0;
    lemma_group_entry(s, parts, g);
    assert forall|j: int| 0 <= j < s.len() && touches(#[trigger] s[j], p) implies magic_pass(
        s,
        gs,
        failed,
    ).contains(s[j].content_path@) by {
        lemma_group_has(s, p, j);
        assert(demoted(gs, failed, g));
        lemma_magic_pass_has(s, gs, failed, j);
    }
}

} // verus!
