use devinfo::{is_raw_disk, DevInfo, Error, MinorRecord, NodeRecord, SpecType, NO_INSTANCE, S_IFBLK, S_IFCHR};

fn minor(name: &str, node_type: &str, spec: u32, path: Result<String, i32>) -> MinorRecord {
    MinorRecord { name: name.to_string(), node_type: node_type.to_string(), spec_type: spec, devfs_path: path }
}

#[test]
fn raw_disk_classification() {
    assert!(is_raw_disk("ddi_block", SpecType::Char));
    assert!(is_raw_disk("ddi_block:channel", SpecType::Char));
    assert!(is_raw_disk("ddi_block:", SpecType::Char));
    assert!(!is_raw_disk("ddi_block", SpecType::Block));
    assert!(!is_raw_disk("ddi_block:channel", SpecType::Block));
    assert!(!is_raw_disk("ddi_blocks", SpecType::Char));
    assert!(!is_raw_disk("ddi_bloc", SpecType::Char));
    assert!(!is_raw_disk("ddi_pseudo", SpecType::Char));
    assert!(!is_raw_disk("", SpecType::Char));
}

#[test]
fn spec_type_codes() {
    assert_eq!(SpecType::from_raw(S_IFCHR), Some(SpecType::Char));
    assert_eq!(SpecType::from_raw(S_IFBLK), Some(SpecType::Block));
    assert_eq!(SpecType::from_raw(0x8000), None);
}

#[test]
fn minors_are_enumerated() {
    let node = NodeRecord {
        name: "disk".to_string(),
        driver: Some("blkdev".to_string()),
        instance: 0,
        devfs_path: Ok("/pci@0/disk@0".to_string()),
        parent: None,
        child: None,
        sibling: None,
        driver_next: None,
        props: Vec::new(),
        minors: vec![
            minor("a", "ddi_block:channel", S_IFBLK, Ok("/pci@0/disk@0:a".to_string())),
            minor("a,raw", "ddi_block:channel", S_IFCHR, Ok("/pci@0/disk@0:a,raw".to_string())),
            minor("ctl", "ddi_ctl", S_IFCHR, Err(2)),
        ],
    };
    let mut di = DevInfo::from_records(vec![node], Vec::new()).unwrap();
    let mut w = di.walk_node();
    let n = w.next().unwrap().unwrap();
    let mut mw = n.minors();
    let m = mw.next().unwrap().unwrap();
    assert_eq!(m.name(), "a");
    assert_eq!(m.spec_type(), SpecType::Block);
    assert!(!m.is_raw_disk());
    let m = mw.next().unwrap().unwrap();
    assert_eq!(m.node_type(), "ddi_block:channel");
    assert_eq!(m.spec_type(), SpecType::Char);
    assert!(m.is_raw_disk());
    assert_eq!(m.devfs_path().unwrap(), "/pci@0/disk@0:a,raw");
    let m = mw.next().unwrap().unwrap();
    assert!(!m.is_raw_disk());
    assert_eq!(m.devfs_path(), Err(Error::Resolve(2)));
    assert!(mw.next().is_none());
    assert!(mw.next().is_none());
}

#[test]
fn unknown_spec_type_is_rejected() {
    let node = NodeRecord {
        name: "disk".to_string(),
        driver: None,
        instance: NO_INSTANCE,
        devfs_path: Ok("/disk".to_string()),
        parent: None,
        child: None,
        sibling: None,
        driver_next: None,
        props: Vec::new(),
        minors: vec![minor("q", "ddi_block", 0x1000, Ok("/disk:q".to_string()))],
    };
    assert!(DevInfo::from_records(vec![node], Vec::new()).is_none());
}
