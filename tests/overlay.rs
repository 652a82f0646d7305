use ro_overlay::overlay::{
    build_options, candidate_paths, decide_mount, probe_from_errno, MountAction,
    Probe,
};

use ro_overlay::umount_ro_overlay;

fn b(s: &str) -> Vec<u8> {
    s.as_bytes().to_vec()
}

fn lowers() -> Vec<Vec<u8>> {
    vec![b("/data/adb/modules/a"), b("/data/adb/modules/b")]
}

fn decide(first: bool, mp: &str, src: &str, stock_is_dir: bool, target: Probe, probes: Vec<Probe>) -> MountAction {
    let cands = candidate_paths(&lowers(), &b(mp));
    decide_mount(first, &b(mp), &b(src), stock_is_dir, target, &cands, &probes)
}

#[test]
fn candidates_are_rerooted_paths() {
    let c = candidate_paths(&lowers(), &b("/system/etc"));
    assert_eq!(c, vec![b("/data/adb/modules/a/system/etc"), b("/data/adb/modules/b/system/etc")]);
}

#[test]
fn no_override_at_destination_is_a_no_op() {
    let r = decide(true, "/system", "/system", true, Probe::Dir, vec![Probe::Absent, Probe::Absent]);
    assert!(matches!(r, MountAction::NoModules));
}

#[test]
fn destination_overlaid_and_nested_mount_bind_restored() {
    let r = decide(true, "/system", "/system", true, Probe::Dir, vec![Probe::Dir, Probe::Absent]);
    match r {
        MountAction::Overlay { target, options } => {
            assert_eq!(target, b("/system"));
            assert_eq!(options, b("lowerdir=/data/adb/modules/a/system:/system"));
        }
        _ => panic!("expected an overlay"),
    }
    let r = decide(false, "/system/vendor", "/proc/self/fd/7", true, Probe::Dir, vec![Probe::Absent, Probe::Absent]);
    match r {
        MountAction::Bind { source, target } => {
            assert_eq!(source, b("/proc/self/fd/7"));
            assert_eq!(target, b("/system/vendor"));
        }
        _ => panic!("expected a bind mount"),
    }
}

#[test]
fn vanished_nested_mount_is_skipped() {
    let r = decide(false, "/system/vendor", "/proc/self/fd/7", true, Probe::Absent, vec![Probe::Dir, Probe::Dir]);
    assert!(matches!(r, MountAction::Skip));
}

#[test]
fn two_overrides_keep_priority_order() {
    let r = decide(false, "/system/etc", "/proc/self/fd/9", true, Probe::Dir, vec![Probe::Dir, Probe::Dir]);
    match r {
        MountAction::Overlay { target, options } => {
            assert_eq!(target, b("/system/etc"));
            assert_eq!(
                options,
                b("lowerdir=/data/adb/modules/a/system/etc:/data/adb/modules/b/system/etc:/proc/self/fd/9")
            );
        }
        _ => panic!("expected an overlay"),
    }
}

#[test]
fn file_override_rejected_only_at_destination() {
    let r = decide(true, "/system", "/system", true, Probe::Dir, vec![Probe::NotDir, Probe::Absent]);
    assert!(matches!(r, MountAction::NoModules));
    let r = decide(false, "/system/vendor", "/proc/self/fd/3", true, Probe::Dir, vec![Probe::NotDir, Probe::Absent]);
    assert!(matches!(r, MountAction::Overlay { .. }));
}

#[test]
fn non_directory_side_keeps_the_mount() {
    let r = decide(false, "/system/build.prop", "/proc/self/fd/3", false, Probe::NotDir, vec![Probe::NotDir, Probe::Absent]);
    assert!(matches!(r, MountAction::Keep));
}

#[test]
fn lookup_errors_abort() {
    let r = decide(false, "/system/vendor", "/proc/self/fd/3", true, Probe::Failed(13), vec![Probe::Dir, Probe::Dir]);
    assert!(matches!(r, MountAction::Fail(13)));
    let r = decide(false, "/system/vendor", "/proc/self/fd/3", true, Probe::Dir, vec![Probe::Absent, Probe::Failed(5)]);
    assert!(matches!(r, MountAction::Fail(5)));
}

#[test]
fn errno_classification() {
    assert_eq!(probe_from_errno(2), Probe::Absent);
    assert_eq!(probe_from_errno(20), Probe::Absent);
    assert_eq!(probe_from_errno(13), Probe::Failed(13));
}

#[test]
fn options_with_no_layer_hold_only_the_source() {
    assert_eq!(build_options(&vec![], &b("/x")), b("lowerdir=/x"));
}

#[test]
fn unmount_does_nothing() {
    umount_ro_overlay();
}
