use hybrid_mount::defs::Mode;
use hybrid_mount::listing::{module_info, sort_by_name, ModuleInfo};
use hybrid_mount::modules::read_prop;
use hybrid_mount::nuke::{kernel_short, select_module};

fn b(s: &str) -> Vec<u8> {
    s.as_bytes().to_vec()
}

fn info(id: &str, name: &str) -> ModuleInfo {
    ModuleInfo { id: b(id), name: b(name), version: vec![], author: vec![], description: vec![], mode: Mode::Auto }
}

#[test]
fn read_prop_takes_first_matching_line() {
    let content = b("namex=no\nname=First\r\nname=Second\nversion=v1");
    assert_eq!(read_prop(&content, b"name"), Some(b("First")));
    assert_eq!(read_prop(&content, b"version"), Some(b("v1")));
    assert_eq!(read_prop(&content, b"author"), None);
    assert_eq!(read_prop(b"x=1\nauthor=\n", b"author"), Some(vec![]));
}

#[test]
fn module_info_falls_back_to_id() {
    let prop = Some(b("version=2\nauthor=someone\ndescription=does things\n"));
    let m = module_info(b"mod_a", &prop, Mode::Magic);
    assert_eq!(m.name, b("mod_a"));
    assert_eq!(m.version, b("2"));
    assert_eq!(m.author, b("someone"));
    assert_eq!(m.description, b("does things"));
    assert_eq!(m.mode, Mode::Magic);
    let bare = module_info(b"m", &None, Mode::Auto);
    assert_eq!(bare.name, b("m"));
    assert!(bare.version.is_empty());
}

#[test]
fn list_is_sorted_by_name_stably() {
    let sorted = sort_by_name(vec![info("1", "zeta"), info("2", "alpha"), info("3", "mid"), info("4", "alpha")]);
    let ids: Vec<Vec<u8>> = sorted.iter().map(|m| m.id.clone()).collect();
    assert_eq!(ids, vec![b("2"), b("4"), b("3"), b("1")]);
    assert!(sort_by_name(vec![]).is_empty());
}

#[test]
fn kernel_short_release() {
    assert_eq!(kernel_short(b"5.10.198-android12-9"), Some(b("5.10")));
    assert_eq!(kernel_short(b"6.1"), Some(b("6.1")));
    assert_eq!(kernel_short(b"6"), None);
}

#[test]
fn select_module_prefers_android_match() {
    let names = vec![b("nuke-5.15-android13.ko"), b("nuke-5.10-android11.ko"), b("nuke-5.10-android12.ko")];
    assert_eq!(select_module(&names, b"5.10", b"12"), Some(2));
    assert_eq!(select_module(&names, b"5.10", b"14"), Some(1));
    assert_eq!(select_module(&names, b"5.10", b""), Some(1));
    assert_eq!(select_module(&names, b"6.1", b"12"), None);
}

#[test]
fn mode_names() {
    assert_eq!(hybrid_mount::defs::mode_of(b"magic"), Mode::Magic);
    assert_eq!(hybrid_mount::defs::mode_of(b"auto"), Mode::Auto);
    assert_eq!(hybrid_mount::defs::mode_of(b"Magic"), Mode::Auto);
}
