use devinfo::{
    devlink_accumulate, disk_name_from_path, whole_disk_name_from_path, has_prefix, links_result, strip_prefix, strip_suffix,
    text_equals, DevLinkType, DiskNameSearch, Error, DI_PRIMARY_LINK, DI_SECONDARY_LINK,
    DI_WALK_CONTINUE,
};

#[test]
fn no_links_is_empty_not_error() {
    let r = links_result(Vec::new(), 0, 0);
    assert!(r.unwrap().is_empty());
}

#[test]
fn accumulate_keeps_decodable_links() {
    let mut out = Vec::new();
    let s = |x: &str| Some(x.to_string());
    assert_eq!(devlink_accumulate(&mut out, s("/dev/dsk/c1d0"), s("/devices/pci@0/disk@0:a"), DI_PRIMARY_LINK), DI_WALK_CONTINUE);
    assert_eq!(devlink_accumulate(&mut out, None, s("/devices/x"), DI_PRIMARY_LINK), DI_WALK_CONTINUE);
    assert_eq!(devlink_accumulate(&mut out, s("/dev/y"), None, DI_PRIMARY_LINK), DI_WALK_CONTINUE);
    assert_eq!(devlink_accumulate(&mut out, s("/dev/z"), s("/devices/z"), 7), DI_WALK_CONTINUE);
    assert_eq!(devlink_accumulate(&mut out, s("/dev/rdsk/c1d0"), s("/devices/pci@0/disk@0:a,raw"), DI_SECONDARY_LINK), DI_WALK_CONTINUE);
    let links = links_result(out, 0, 0).unwrap();
    assert_eq!(links.len(), 2);
    assert_eq!(links[0].path(), "/dev/dsk/c1d0");
    assert_eq!(links[0].target(), "/devices/pci@0/disk@0:a");
    assert_eq!(links[0].linktype(), DevLinkType::Primary);
    assert_eq!(links[1].path(), "/dev/rdsk/c1d0");
    assert_eq!(links[1].linktype(), DevLinkType::Secondary);
}

#[test]
fn links_compare_by_fields() {
    let mut a = Vec::new();
    let s = |x: &str| Some(x.to_string());
    devlink_accumulate(&mut a, s("/dev/dsk/c1d0"), s("/devices/d:a"), DI_PRIMARY_LINK);
    devlink_accumulate(&mut a, s("/dev/dsk/c1d0"), s("/devices/d:a"), DI_PRIMARY_LINK);
    devlink_accumulate(&mut a, s("/dev/dsk/c1d0"), s("/devices/d:a"), DI_SECONDARY_LINK);
    devlink_accumulate(&mut a, s("/dev/dsk/c1d0"), s("/devices/d:b"), DI_PRIMARY_LINK);
    assert_eq!(a[0], a[1]);
    assert_ne!(a[0], a[2]);
    assert_ne!(a[0], a[3]);
    assert_eq!(a[0].clone(), a[0]);
}

#[test]
fn failed_enumeration_discards_links() {
    let mut out = Vec::new();
    devlink_accumulate(&mut out, Some("/dev/a".to_string()), Some("/devices/a".to_string()), DI_PRIMARY_LINK);
    assert_eq!(links_result(out, -1, 5).unwrap_err(), Error::Walk(5));
}

fn run_search(paths: &[Option<&str>]) -> (Option<String>, Vec<String>) {
    let mut tried = Vec::new();
    let mut s = DiskNameSearch::new();
    while let Some(m) = s.minor() {
        let i = tried.len();
        tried.push(m);
        if let Some(n) = s.offer(paths[i].map(|p| p.to_string())) {
            return (Some(n), tried);
        }
    }
    (None, tried)
}

#[test]
fn disk_name_from_whole_disk_minor() {
    let (n, tried) = run_search(&[Some("/dev/dsk/c1t0025385C9150D623d0"), None]);
    assert_eq!(n, Some("c1t0025385C9150D623d0".to_string()));
    assert_eq!(tried, vec!["wd".to_string()]);
}

#[test]
fn whole_disk_minor_keeps_slice_suffix() {
    let (n, tried) = run_search(&[Some("/dev/dsk/c0d0s0"), Some("/dev/dsk/c9d9s0")]);
    assert_eq!(n, Some("c0d0s0".to_string()));
    assert_eq!(tried, vec!["wd".to_string()]);
}

#[test]
fn disk_name_from_legacy_minor() {
    let (n, tried) = run_search(&[None, Some("/dev/dsk/c2t0d0s0")]);
    assert_eq!(n, Some("c2t0d0".to_string()));
    assert_eq!(tried, vec!["wd".to_string(), "a".to_string()]);
}

#[test]
fn disk_name_absent() {
    assert_eq!(run_search(&[None, None]).0, None);
    let (n, tried) = run_search(&[Some("/dev/rdsk/c1d0"), Some("/devices/x")]);
    assert_eq!(n, None);
    assert_eq!(tried.len(), 2);
    assert_eq!(run_search(&[Some("/dev/other"), Some("/dev/dsk/c3d0s0")]).0, Some("c3d0".to_string()));
}

#[test]
fn disk_name_paths() {
    assert_eq!(disk_name_from_path("/dev/dsk/c1d0"), Some("c1d0".to_string()));
    assert_eq!(disk_name_from_path("/dev/dsk/c1d0s0"), Some("c1d0".to_string()));
    assert_eq!(disk_name_from_path("/dev/dsk/c1d0s1"), Some("c1d0s1".to_string()));
    assert_eq!(disk_name_from_path("/dev/dsk/"), Some("".to_string()));
    assert_eq!(disk_name_from_path("/dev/dsk"), None);
    assert_eq!(disk_name_from_path("dev/dsk/c1d0"), None);
    assert_eq!(whole_disk_name_from_path("/dev/dsk/c1d0s0"), Some("c1d0s0".to_string()));
    assert_eq!(whole_disk_name_from_path("/dev/dsk/c1d0"), Some("c1d0".to_string()));
    assert_eq!(whole_disk_name_from_path("/dev/rdsk/c1d0"), None);
}

#[test]
fn text_helpers() {
    assert_eq!(strip_prefix("abc", "ab"), Some("c"));
    assert_eq!(strip_prefix("abc", "b"), None);
    assert_eq!(strip_suffix("abs0", "s0"), Some("ab"));
    assert_eq!(strip_suffix("abs1", "s0"), None);
    assert!(has_prefix("ddi_block:x", "ddi_block:"));
    assert!(!has_prefix("ddi", "ddi_block:"));
    assert!(text_equals("ddi_block", "ddi_block"));
    assert!(!text_equals("ddi_block", "ddi_bloc"));
    assert!(!text_equals("ddi_bloc", "ddi_block"));
}
