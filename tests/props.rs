use devinfo::{DevInfo, NodeRecord, PropRecord, PropType, NO_INSTANCE};

fn prop(name: &str, kind: i32) -> PropRecord {
    PropRecord {
        name: name.to_string(),
        kind,
        ints: Vec::new(),
        int64s: Vec::new(),
        strings: Vec::new(),
        bytes: None,
    }
}

fn snapshot(props: Vec<PropRecord>) -> DevInfo {
    let node = NodeRecord {
        name: "root".to_string(),
        driver: None,
        instance: NO_INSTANCE,
        devfs_path: Ok("/".to_string()),
        parent: None,
        child: None,
        sibling: None,
        driver_next: None,
        props,
        minors: Vec::new(),
    };
    DevInfo::from_records(vec![node], Vec::new()).unwrap()
}

fn sample_props() -> Vec<PropRecord> {
    let mut i32p = prop("reg", 1);
    i32p.ints = vec![-7, 3];
    let mut i64p = prop("size", 6);
    i64p.int64s = vec![1 << 40];
    let mut sp = prop("model", 2);
    sp.strings = vec![b"disk".to_vec()];
    let mut bad = prop("raw", 2);
    bad.strings = vec![vec![0xff, 0x41]];
    let mut bp = prop("blob", 3);
    bp.bytes = Some(vec![1, 2, 3]);
    let boolp = prop("flag", 0);
    let empty = prop("none", 1);
    vec![i32p, i64p, sp, bad, bp, boolp, empty]
}

#[test]
fn decoders_follow_the_kind() {
    let mut di = snapshot(sample_props());
    let mut w = di.walk_node();
    let n = w.next().unwrap().unwrap();
    let mut pw = n.props();
    let p = pw.next().unwrap().unwrap();
    assert_eq!(p.name(), "reg");
    assert_eq!(p.value_type(), PropType::Int32);
    assert_eq!(p.as_i32(), Some(-7));
    assert_eq!(p.as_i64(), Some(-7i64));
    assert_eq!(p.to_str(), None);
    assert_eq!(p.as_bytes(), None);

    let p = pw.next().unwrap().unwrap();
    assert_eq!(p.value_type(), PropType::Int64);
    assert_eq!(p.as_i64(), Some(1i64 << 40));
    assert_eq!(p.as_i32(), None);
    assert_eq!(p.as_cstr(), None);

    let p = pw.next().unwrap().unwrap();
    assert_eq!(p.value_type(), PropType::String);
    assert_eq!(p.to_str(), Some("disk".to_string()));
    assert_eq!(p.as_cstr(), Some(&b"disk"[..]));
    assert_eq!(p.as_i64(), None);

    let p = pw.next().unwrap().unwrap();
    assert_eq!(p.as_cstr(), Some(&[0xffu8, 0x41][..]));
    assert_eq!(p.to_str(), None);

    let p = pw.next().unwrap().unwrap();
    assert_eq!(p.value_type(), PropType::Byte);
    assert_eq!(p.as_bytes(), Some(&[1u8, 2, 3][..]));
    assert_eq!(p.as_i32(), None);

    let p = pw.next().unwrap().unwrap();
    assert_eq!(p.value_type(), PropType::Boolean);
    assert_eq!(p.as_i32(), None);
    assert_eq!(p.as_i64(), None);
    assert_eq!(p.to_str(), None);
    assert_eq!(p.as_bytes(), None);

    let p = pw.next().unwrap().unwrap();
    assert_eq!(p.value_type(), PropType::Int32);
    assert_eq!(p.as_i32(), None);

    assert!(pw.next().is_none());
    assert!(pw.next().is_none());
}

#[test]
fn prop_type_codes() {
    assert_eq!(PropType::from_raw(0), Some(PropType::Boolean));
    assert_eq!(PropType::from_raw(4), Some(PropType::Unknown));
    assert_eq!(PropType::from_raw(5), Some(PropType::Undefined));
    assert_eq!(PropType::from_raw(6), Some(PropType::Int64));
    assert_eq!(PropType::from_raw(7), None);
    assert_eq!(PropType::from_raw(-1), None);
}

#[test]
fn string_props_last_write_wins() {
    let mut props = sample_props();
    let mut dup = prop("model", 2);
    dup.strings = vec![b"ssd".to_vec()];
    let mut multi = prop("compatible", 2);
    multi.strings = vec![b"x".to_vec(), b"y".to_vec()];
    props.push(dup);
    props.push(multi);
    let mut di = snapshot(props);
    let mut w = di.walk_node();
    let n = w.next().unwrap().unwrap();
    let mut got = n.string_props();
    got.sort();
    assert_eq!(
        got,
        vec![
            ("model".to_string(), "ssd".to_string()),
            ("raw".to_string(), "\u{fffd}A".to_string()),
        ]
    );
}

#[test]
fn no_properties() {
    let mut di = snapshot(Vec::new());
    let mut w = di.walk_node();
    let n = w.next().unwrap().unwrap();
    assert!(n.props().next().is_none());
    assert!(n.string_props().is_empty());
}

#[test]
fn display_text_of_each_kind() {
    let mut zero = prop("zero", 1);
    zero.ints = vec![0];
    let mut min = prop("min", 6);
    min.int64s = vec![i64::MIN];
    let mut di = snapshot(vec![sample_props().remove(0), sample_props().remove(1), sample_props().remove(2), prop("flag", 0), zero, min]);
    let mut w = di.walk_node();
    let n = w.next().unwrap().unwrap();
    let mut pw = n.props();
    let mut got = Vec::new();
    while let Some(p) = pw.next() {
        got.push(p.unwrap().to_display_string());
    }
    assert_eq!(got, vec!["-7", "1099511627776", "disk", "<?Property>", "0", "-9223372036854775808"]);
}

#[test]
fn unknown_kind_code_is_rejected() {
    let node = NodeRecord {
        name: "root".to_string(),
        driver: None,
        instance: NO_INSTANCE,
        devfs_path: Ok("/".to_string()),
        parent: None,
        child: None,
        sibling: None,
        driver_next: None,
        props: vec![prop("odd", 9)],
        minors: Vec::new(),
    };
    assert!(DevInfo::from_records(vec![node], Vec::new()).is_none());
}
