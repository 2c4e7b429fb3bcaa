use devinfo::{DevInfo, Error, NodeRecord, NO_INSTANCE};

fn rec(name: &str, parent: Option<usize>, child: Option<usize>, sibling: Option<usize>) -> NodeRecord {
    NodeRecord {
        name: name.to_string(),
        driver: None,
        instance: NO_INSTANCE,
        devfs_path: Ok(format!("/{}", name)),
        parent,
        child,
        sibling,
        driver_next: None,
        props: Vec::new(),
        minors: Vec::new(),
    }
}

/// root -> { a -> { a1, a2 }, pseudo -> { p1 }, b }
fn sample() -> DevInfo {
    let mut nodes = vec![
        rec("root", None, Some(1), None),
        rec("a", Some(0), Some(4), Some(2)),
        rec("pseudo", Some(0), Some(6), Some(3)),
        rec("b", Some(0), None, None),
        rec("a1", Some(1), None, Some(5)),
        rec("a2", Some(1), None, None),
        rec("p1", Some(2), None, None),
    ];
    nodes[4].driver = Some("blkdev".to_string());
    nodes[4].instance = 0;
    nodes[4].driver_next = Some(6);
    nodes[6].driver = Some("blkdev".to_string());
    nodes[6].instance = 1;
    nodes[3].devfs_path = Err(6);
    DevInfo::from_records(nodes, vec![("blkdev".to_string(), 4)]).unwrap()
}

fn names(di: &mut DevInfo, prune: &str) -> Vec<String> {
    let mut out = Vec::new();
    let mut w = di.walk_node();
    while let Some(n) = w.next() {
        let n = n.unwrap();
        let name = n.node_name();
        if name == prune {
            w.skip_children();
        }
        out.push(name);
    }
    assert!(w.next().is_none());
    out
}

#[test]
fn walk_visits_every_node_in_preorder() {
    let mut di = sample();
    assert_eq!(names(&mut di, ""), vec!["root", "a", "a1", "a2", "pseudo", "p1", "b"]);
}

#[test]
fn walk_prunes_subtree() {
    let mut di = sample();
    assert_eq!(names(&mut di, "pseudo"), vec!["root", "a", "a1", "a2", "pseudo", "b"]);
    assert_eq!(names(&mut di, "a"), vec!["root", "a", "pseudo", "p1", "b"]);
    assert_eq!(names(&mut di, "root"), vec!["root"]);
}

#[test]
fn walk_single_root() {
    let mut di = DevInfo::from_records(vec![rec("root", None, None, None)], Vec::new()).unwrap();
    assert_eq!(names(&mut di, ""), vec!["root"]);
}

#[test]
fn from_records_rejects_broken_links() {
    assert!(DevInfo::from_records(Vec::new(), Vec::new()).is_none());
    assert!(DevInfo::from_records(vec![rec("root", None, Some(1), None)], Vec::new()).is_none());
    let nodes = vec![rec("root", None, Some(1), None), rec("x", Some(0), None, Some(2)), rec("y", Some(1), None, None)];
    assert!(DevInfo::from_records(nodes, Vec::new()).is_none());
    let nodes = vec![rec("root", None, None, None)];
    assert!(DevInfo::from_records(nodes, vec![("sd".to_string(), 1)]).is_none());
}

#[test]
fn from_records_rejects_unbound_driver_index() {
    let nodes = vec![rec("root", None, None, None)];
    assert!(DevInfo::from_records(nodes, vec![("blkdev".to_string(), 0)]).is_none());
    let mut nodes = vec![rec("root", None, Some(1), None), rec("x", Some(0), None, None)];
    nodes[1].driver = Some("sd".to_string());
    assert!(DevInfo::from_records(nodes, vec![("blkdev".to_string(), 1)]).is_none());
}

#[test]
fn from_records_rejects_mixed_driver_chain() {
    let mut nodes = vec![
        rec("root", None, Some(1), None),
        rec("x", Some(0), None, Some(2)),
        rec("y", Some(0), None, None),
    ];
    nodes[1].driver = Some("sd".to_string());
    nodes[1].driver_next = Some(2);
    nodes[2].driver = Some("blkdev".to_string());
    assert!(DevInfo::from_records(nodes, vec![("sd".to_string(), 1)]).is_none());
}

#[test]
fn from_records_rejects_unlinked_node() {
    let nodes = vec![rec("root", None, None, None), rec("lost", Some(0), None, None)];
    assert!(DevInfo::from_records(nodes, Vec::new()).is_none());
}

#[test]
fn node_depth_parent_and_instance() {
    let mut di = sample();
    let mut w = di.walk_node();
    let root = w.next().unwrap().unwrap();
    assert_eq!(root.depth(), 1);
    assert!(root.parent().unwrap().is_none());
    assert_eq!(root.instance(), None);
    assert_eq!(root.driver_name(), None);
    let a = w.next().unwrap().unwrap();
    let a1 = w.next().unwrap().unwrap();
    assert_eq!(a.depth(), 2);
    assert_eq!(a1.depth(), 3);
    assert_eq!(a1.parent().unwrap().unwrap().node_name(), "a");
    assert_eq!(a1.instance(), Some(0));
    assert_eq!(a1.driver_name(), Some("blkdev".to_string()));
    assert_eq!(a1.devfs_path().unwrap(), "/a1");
}

#[test]
fn devfs_path_error_is_reported() {
    let mut di = sample();
    let mut w = di.walk_node();
    let mut last = None;
    while let Some(n) = w.next() {
        let n = n.unwrap();
        if n.node_name() == "b" {
            last = Some(n.devfs_path());
        }
    }
    let e = last.unwrap().unwrap_err();
    assert_eq!(e, Error::Resolve(6));
    assert_eq!(e.os_error(), 6);
}

#[test]
fn driver_walk_follows_driver_index() {
    let mut di = sample();
    let mut w = di.walk_driver("blkdev");
    let got: Vec<(String, Option<i32>)> = std::iter::from_fn(|| w.next())
        .map(|n| {
            let n = n.unwrap();
            assert_eq!(n.driver_name(), Some("blkdev".to_string()));
            (n.node_name(), n.instance())
        })
        .collect();
    assert_eq!(got, vec![("a1".to_string(), Some(0)), ("p1".to_string(), Some(1))]);
    assert!(w.next().is_none());
    let mut w = di.walk_driver("sd");
    assert!(w.next().is_none());
}
