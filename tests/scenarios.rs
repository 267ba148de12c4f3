use hybrid_mount::defs::{target_partition_list, Config, Mode, Module};
use hybrid_mount::engine::{magic_modules, overlay_request, run, ActiveModule};
use hybrid_mount::modules::{description_line, replace_description, update_description};
use hybrid_mount::overlay::{
    child_action, child_mounts, legacy_mount_data, lowerdir_option, relative_path, stock_child,
    ChildAction, ChildProbe,
};
use hybrid_mount::planner::{generate, has_meaningful_content, StagedModule};
use hybrid_mount::scanner::{scan_active_modules, scan_enabled_ids, EntryProbe, ModuleRoot};
use hybrid_mount::sync::{has_sync_content, prune_orphaned_modules, repair_module_contexts, should_sync, system_path_for};

fn b(s: &str) -> Vec<u8> {
    s.as_bytes().to_vec()
}

fn text(v: &[u8]) -> String {
    String::from_utf8(v.to_vec()).unwrap()
}

fn config() -> Config {
    Config { partitions: vec![], tempdir: None, mountsource: b("KSU") }
}

fn staged(id: &str, mode: Mode, filled: &[&str]) -> StagedModule {
    StagedModule { id: b(id), mode, present: true, filled: filled.iter().map(|p| b(p)).collect() }
}

fn active(id: &str, mode: Mode, dirs: &[&str]) -> ActiveModule {
    ActiveModule {
        id: b(id),
        content_path: b(&format!("/mnt/{}", id)),
        mode,
        exists: true,
        dirs: dirs.iter().map(|p| b(p)).collect(),
    }
}

fn module(id: &str) -> Module {
    Module { id: b(id), source_path: b(&format!("/data/adb/modules/{}", id)), mode: Mode::Auto }
}

#[test]
fn empty_inventory_is_a_no_op() {
    let staging = vec![b("old"), b("lost+found"), b("meta-hybrid"), b("stale")];
    let pruned = prune_orphaned_modules(&vec![], &staging);
    assert_eq!(pruned, vec![b("old"), b("stale")]);
    let plan = generate(&config(), &vec![], &b("/mnt"));
    assert!(plan.overlay_ops.is_empty());
    assert!(plan.magic_module_paths.is_empty());
    let rp = run(&vec![], &config());
    assert!(rp.groups.is_empty());
    assert!(magic_modules(&vec![], &rp, &vec![]).is_empty());
}

#[test]
fn single_auto_module_gives_one_overlay() {
    let plan = generate(&config(), &vec![staged("mA", Mode::Auto, &["system"])], &b("/mnt"));
    assert_eq!(plan.overlay_ops.len(), 1);
    assert_eq!(text(&plan.overlay_ops[0].target), "/system");
    assert_eq!(plan.overlay_ops[0].lowerdirs, vec![b("/mnt/mA/system")]);
    assert!(plan.magic_module_paths.is_empty());
    assert!(plan.magic_module_ids.is_empty());
    assert_eq!(plan.overlay_module_ids, vec![b("mA")]);

    let mods = vec![active("mA", Mode::Auto, &["system"])];
    let rp = run(&mods, &config());
    assert_eq!(rp.groups.len(), 1);
    assert!(!rp.groups[0].force_magic);
    let (target, layers) = overlay_request(&rp.groups[0]);
    assert_eq!(text(&target), "/system");
    assert_eq!(layers, vec![b("/mnt/mA/system")]);
    assert_eq!(text(&lowerdir_option(&layers, b"/system")), "/mnt/mA/system:/system");
    assert!(magic_modules(&mods, &rp, &vec![false]).is_empty());
}

#[test]
fn two_modules_stack_in_priority_order() {
    let plan = generate(
        &config(),
        &vec![staged("mB", Mode::Auto, &["system"]), staged("mA", Mode::Auto, &["system"])],
        &b("staging"),
    );
    assert_eq!(plan.overlay_ops[0].lowerdirs, vec![b("staging/mB/system"), b("staging/mA/system")]);
    assert_eq!(plan.overlay_module_ids, vec![b("mA"), b("mB")]);

    let mods = vec![active("mA", Mode::Auto, &["system"]), active("mB", Mode::Auto, &["system"])];
    let rp = run(&mods, &config());
    let (_, layers) = overlay_request(&rp.groups[0]);
    assert_eq!(layers, vec![b("/mnt/mB/system"), b("/mnt/mA/system")]);
    let opt = text(&lowerdir_option(&layers, b"/system"));
    assert!(opt.ends_with("mA/system:/system"));
    assert_eq!(opt, "/mnt/mB/system:/mnt/mA/system:/system");
}

#[test]
fn three_modules_plan_layers_descending() {
    let plan = generate(
        &config(),
        &vec![
            staged("C", Mode::Auto, &["system"]),
            staged("B", Mode::Auto, &["system"]),
            staged("A", Mode::Auto, &["system"]),
        ],
        &b(""),
    );
    assert_eq!(plan.overlay_ops[0].lowerdirs, vec![b("C/system"), b("B/system"), b("A/system")]);
}

#[test]
fn mixed_mode_forces_partitions_to_magic() {
    let mods = vec![
        active("mB", Mode::Magic, &["system", "vendor"]),
        active("mA", Mode::Auto, &["system"]),
    ];
    let rp = run(&mods, &config());
    assert_eq!(rp.groups.len(), 2);
    assert_eq!(text(&rp.groups[0].partition), "system");
    assert!(rp.groups[0].force_magic);
    assert_eq!(rp.groups[0].modules, vec![b("/mnt/mA"), b("/mnt/mB")]);
    assert_eq!(text(&rp.groups[1].partition), "vendor");
    assert!(rp.groups[1].force_magic);
    let magic = magic_modules(&mods, &rp, &vec![false, false]);
    assert_eq!(magic, vec![b("/mnt/mA"), b("/mnt/mB")]);

    let plan = generate(
        &config(),
        &vec![staged("mB", Mode::Magic, &["system", "vendor"]), staged("mA", Mode::Auto, &["system"])],
        &b("/s"),
    );
    assert!(plan.overlay_ops.is_empty());
    assert_eq!(plan.magic_module_paths, vec![b("/s/mB"), b("/s/mA")]);
    assert_eq!(plan.magic_module_ids, vec![b("mA"), b("mB")]);
    assert!(plan.overlay_module_ids.is_empty());
}

#[test]
fn plan_forces_only_touched_partitions() {
    let plan = generate(
        &config(),
        &vec![
            staged("mC", Mode::Auto, &["vendor"]),
            staged("mB", Mode::Magic, &["system"]),
            staged("mA", Mode::Auto, &["system", "product"]),
        ],
        &b("/s"),
    );
    let targets: Vec<String> = plan.overlay_ops.iter().map(|o| text(&o.target)).collect();
    assert_eq!(targets, vec!["/vendor", "/product"]);
    assert_eq!(plan.overlay_ops[1].lowerdirs, vec![b("/s/mA/product")]);
    assert_eq!(plan.magic_module_paths, vec![b("/s/mB"), b("/s/mA")]);
    assert_eq!(plan.magic_module_ids, vec![b("mA"), b("mB")]);
    assert_eq!(plan.overlay_module_ids, vec![b("mA"), b("mC")]);
}

#[test]
fn failed_overlay_demotes_partition() {
    let mods = vec![active("v2", Mode::Auto, &["vendor"]), active("v1", Mode::Auto, &["vendor"])];
    let rp = run(&mods, &config());
    assert_eq!(rp.groups.len(), 1);
    assert!(!rp.groups[0].force_magic);
    let (_, layers) = overlay_request(&rp.groups[0]);
    let lower = lowerdir_option(&layers, b"/vendor");
    assert_eq!(text(&legacy_mount_data(&lower, &None, &None)), "lowerdir=/mnt/v2/vendor:/mnt/v1/vendor:/vendor");
    assert!(magic_modules(&mods, &rp, &vec![false]).is_empty());
    assert_eq!(magic_modules(&mods, &rp, &vec![true]), vec![b("/mnt/v1"), b("/mnt/v2")]);
}

#[test]
fn legacy_data_carries_upper_and_work_only_together() {
    let up = Some(b("/rw/upper"));
    let work = Some(b("/rw/work"));
    assert_eq!(text(&legacy_mount_data(b"a:b", &up, &work)), "lowerdir=a:b,upperdir=/rw/upper,workdir=/rw/work");
    assert_eq!(text(&legacy_mount_data(b"a:b", &up, &None)), "lowerdir=a:b");
}

#[test]
fn description_line_literal() {
    assert_eq!(
        text(&description_line("tmpfs", false, 3, 1)),
        "description=😋 运行中喵～ (Tmpfs) 🐾 | Overlay: 3 | Magic: 1"
    );
    let ext = text(&description_line("ext4", true, 0, 0));
    assert!(ext.contains("(Ext4) 💿 | Overlay: 0 | Magic: 0 | 肉垫: 开启 ✨"));
    assert_eq!(text(&description_line("ext4", false, 120, 45)), "description=😋 运行中喵～ (Ext4) 💿 | Overlay: 120 | Magic: 45");
}

#[test]
fn descriptor_rewrite_is_idempotent_and_keeps_lines() {
    let content = b("id=x\nname=X\ndescription=old one\nauthor=me\ndescription=second\n");
    let once = update_description(&content, "tmpfs", false, 3, 1);
    let twice = update_description(&once, "tmpfs", false, 3, 1);
    assert_eq!(once, twice);
    assert_eq!(
        text(&once),
        "id=x\nname=X\ndescription=😋 运行中喵～ (Tmpfs) 🐾 | Overlay: 3 | Magic: 1\nauthor=me\ndescription=second\n"
    );
    let none = b("id=x\nname=description=no\n");
    assert_eq!(replace_description(&none, b"description=new"), none);
    assert_eq!(replace_description(b"description=a", b"description=b"), b("description=b"));
}

#[test]
fn child_mount_without_module_is_bound_back() {
    let mps = vec![b("/system"), b("/system/vendor"), b("/system_ext"), b("/vendor"), b("/system/vendor"), b("/system/apex")];
    let children = child_mounts(b"/system", &mps);
    assert_eq!(children, vec![b("/system/apex"), b("/system/vendor")]);
    let rel = relative_path(b"/system/vendor", b"/system");
    assert_eq!(text(&rel), "/vendor");
    assert_eq!(text(&stock_child(&rel)), "./vendor");
    let roots = vec![b("/mnt/mA/system"), b("/mnt/mB/system")];
    let none = vec![ChildProbe { exists: false, is_dir: false }; 2];
    assert!(matches!(child_action(&rel, &roots, &none, true), ChildAction::Bind));
}

#[test]
fn child_mount_with_module_gets_overlay() {
    let roots = vec![b("/mnt/mA/system"), b("/mnt/mB/system")];
    let probes = vec![ChildProbe { exists: true, is_dir: true }, ChildProbe { exists: false, is_dir: false }];
    match child_action(b"/vendor", &roots, &probes, true) {
        ChildAction::Overlay(l) => assert_eq!(l, vec![b("/mnt/mA/system/vendor")]),
        _ => panic!("expected an overlay"),
    }
    let clash = vec![ChildProbe { exists: true, is_dir: true }, ChildProbe { exists: true, is_dir: false }];
    assert!(matches!(child_action(b"/vendor", &roots, &clash, true), ChildAction::Skip));
    assert!(matches!(child_action(b"/vendor", &roots, &probes, false), ChildAction::Skip));
}

#[test]
fn prune_twice_removes_nothing_more() {
    let inventory = vec![module("a"), module("b")];
    let staging = vec![b("a"), b("gone"), b("b"), b("lost+found"), b("x")];
    let first = prune_orphaned_modules(&inventory, &staging);
    assert_eq!(first, vec![b("gone"), b("x")]);
    let left: Vec<Vec<u8>> = staging.into_iter().filter(|e| !first.contains(e)).collect();
    assert!(prune_orphaned_modules(&inventory, &left).is_empty());
}

#[test]
fn sync_follows_module_prop() {
    let prop_v1 = Some(b("version=1\n"));
    let prop_v2 = Some(b("version=2\n"));
    assert!(!should_sync(true, &prop_v1, &prop_v1.clone()));
    assert!(should_sync(true, &prop_v1, &prop_v2));
    assert!(should_sync(false, &prop_v1, &prop_v1.clone()));
    assert!(should_sync(true, &None, &prop_v1));
    assert!(should_sync(true, &prop_v1, &None));
}

#[test]
fn marker_removes_module_and_prunes_it() {
    let entry = |name: &str, disable: bool, remove: bool, skip: bool| EntryProbe {
        name: b(name),
        is_dir: true,
        disable,
        remove,
        skip_mount: skip,
    };
    let entries = vec![
        entry("a", false, false, false),
        entry("b", true, false, false),
        entry("c", false, true, false),
        entry("d", false, false, true),
        entry("meta-hybrid", false, false, false),
        EntryProbe { name: b("f"), is_dir: false, disable: false, remove: false, skip_mount: false },
    ];
    let ids = scan_enabled_ids(&entries);
    assert_eq!(ids, vec![b("a")]);
    let inventory = vec![module("a")];
    let pruned = prune_orphaned_modules(&inventory, &vec![b("a"), b("b"), b("d")]);
    assert_eq!(pruned, vec![b("b"), b("d")]);
}

#[test]
fn active_modules_first_registration_wins() {
    let merged = scan_active_modules(
        &vec![b("a"), b("b")],
        b"/data/adb/modules",
        &vec![
            ModuleRoot { id: b("b"), path: b("/mnt/b") },
            ModuleRoot { id: b("c"), path: b("/mnt/c") },
        ],
    );
    let got: Vec<(String, String)> = merged.iter().map(|r| (text(&r.id), text(&r.path))).collect();
    assert_eq!(
        got,
        vec![
            ("a".to_string(), "/data/adb/modules/a".to_string()),
            ("b".to_string(), "/data/adb/modules/b".to_string()),
            ("c".to_string(), "/mnt/c".to_string()),
        ]
    );
}

#[test]
fn reserved_ids_never_become_modules() {
    let merged = scan_active_modules(
        &vec![b("a"), b("meta-hybrid")],
        b"/data/adb/modules",
        &vec![
            ModuleRoot { id: b("lost+found"), path: b("/mnt/lost+found") },
            ModuleRoot { id: b("meta-hybrid"), path: b("/mnt/meta-hybrid") },
            ModuleRoot { id: b("c"), path: b("/mnt/c") },
        ],
    );
    let ids: Vec<String> = merged.iter().map(|r| text(&r.id)).collect();
    assert_eq!(ids, vec!["a", "c"]);
}

#[test]
fn sync_content_needs_a_builtin_partition() {
    assert!(has_sync_content(&vec![b("vendor")]));
    assert!(!has_sync_content(&vec![b("data"), b("my_product")]));
    assert!(!has_sync_content(&vec![]));
}

#[test]
fn partitions_include_extras_once() {
    let parts = target_partition_list(&vec![b("my_product"), b("system"), b("my_product")]);
    let names: Vec<String> = parts.iter().map(|p| text(p)).collect();
    assert_eq!(names, vec!["system", "vendor", "product", "system_ext", "odm", "oem", "my_product"]);
}

#[test]
fn meaningful_content_and_missing_staging() {
    let parts = target_partition_list(&vec![]);
    assert!(has_meaningful_content(&staged("m", Mode::Magic, &["odm"]), &parts));
    assert!(!has_meaningful_content(&staged("m", Mode::Magic, &["data"]), &parts));
    let mut gone = staged("m", Mode::Auto, &["system"]);
    gone.present = false;
    let plan = generate(&config(), &vec![gone], &b("/s"));
    assert!(plan.overlay_ops.is_empty());
    assert!(plan.overlay_module_ids.is_empty());
}

#[test]
fn context_paths_mirror_the_system() {
    assert_eq!(system_path_for(b"/mnt/m", b"/mnt/m/system/bin/x"), Some(b("/system/bin/x")));
    assert_eq!(system_path_for(b"/mnt/m", b"/mnt/m"), Some(b("/")));
    assert_eq!(system_path_for(b"/mnt/m", b"/mnt/mx/system"), None);
    let roots = repair_module_contexts(b"/mnt/m", &vec![b("vendor"), b("system"), b("data")]);
    assert_eq!(roots, vec![b("/mnt/m/system"), b("/mnt/m/vendor")]);
}
