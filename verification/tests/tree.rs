use oscq_rs::{
    OSCAccess, OSCDistance, OSCNode, OSCSpeed, OSCUnit, OscHostInfo, OscHostInfoExtension,
    OscQueryError, OscQueryParameter, OscQueryResponse, OscRange, OscValue,
};

#[test]
fn readme_example() {
    // create the root node with host information
    let mut root = OSCNode::root(Some(Box::new(OscHostInfo::new(
        "My OSC Server".to_string(),
        "127.0.0.1".to_string(),
        9000,
    ))));

    // create a parameter for a float type endpoint
    let param1 = OscQueryParameter::new(
        "/endpoint1".to_string(),
        OscValue::Float("0.0".to_string()),
    )
    .with_access(OSCAccess::ReadWrite)
    .with_unit(OSCUnit::Distance(OSCDistance::Centimeter))
    .with_description("This is endpoint1".to_string())
    .with_min_max("0.0".to_string(), "100.0".to_string());

    // create a parameter for a second float type endpoint
    let param2 = OscQueryParameter::new(
        "/endpoint2".to_string(),
        OscValue::Float("1.0".to_string()),
    )
    .with_access(OSCAccess::Read)
    .with_description("This is endpoint2".to_string());

    // add the parameters to the root node
    root.add(param1).unwrap();
    root.add(param2).unwrap();

    let json_str = root.to_json();
    println!("{}", json_str);
}

#[test]
fn serialize_osc_node() {
    let range = OscRange {
        min: Some("100.0".to_string()),
        max: Some("200.0".to_string()),
        vals: None,
    };

    let node = OSCNode {
        description: "A test node".to_string(),
        access: Some(OSCAccess::ReadWrite),
        full_path: "/test/node".to_string(),
        contents: Some(vec![(
            "child_node".to_string(),
            OSCNode {
                description: "A child node".to_string(),
                full_path: "/test/node/child_node".to_string(),
                access: Some(OSCAccess::ReadWrite),
                contents: None,
                osc_type: Some(vec![OscValue::Int(0)]),
                value: Some(vec![OscValue::Int(123)]),
                range: Some(vec![range]),
                unit: None,
                host_info: None,
            },
        )]),
        osc_type: Some(vec![
            OscValue::Float("0.0".to_string()),
            OscValue::Float("0.0".to_string()),
        ]),
        value: Some(vec![
            OscValue::Float("3.1234".to_string()),
            OscValue::Float("2.7182".to_string()),
        ]),
        range: None,
        unit: Some(vec![
            OSCUnit::Distance(OSCDistance::Meter),
            OSCUnit::Speed(OSCSpeed::KilometersPerHour),
        ]),
        host_info: None,
    };

    let serialized = node.to_json();
    println!("{}", serialized);
    assert_eq!(
        serialized,
        r#"{"DESCRIPTION":"A test node","FULL_PATH":"/test/node","ACCESS":3,"CONTENTS":{"child_node":{"DESCRIPTION":"A child node","FULL_PATH":"/test/node/child_node","ACCESS":3,"TYPE":"i","VALUE":[123],"RANGE":[{"MIN":100.0,"MAX":200.0}]}},"TYPE":"ff","VALUE":[3.1234,2.7182],"UNIT":["distance.m","speed.km/h"]}"#
    );
}

#[test]
fn add_parameters() {
    let ext = OscHostInfoExtension {
        access: true,
        value: true,
        range: true,
        description: true,
        tags: false,
        extended_type: false,
        unit: false,
        critical: false,
        clipmode: false,
        listen: false,
        path_changed: false,
    };

    let info = OscHostInfo {
        name: "OSCQuery Test".to_string(),
        osc_ip: "127.0.0.1".to_string(),
        osc_port: 6666,
        extension: ext,
        osc_trans: "UDP".to_string(),
    };

    let mut root = OSCNode::root(Some(Box::new(info)));

    let par1 = OscQueryParameter::new(
        "/group/test".to_string(),
        OscValue::Float("1.0".to_string()),
    )
    .with_description("My First Description".to_string())
    .with_min_max("0.0".to_string(), "10.0".to_string())
    .with_access(OSCAccess::ReadWrite)
    .with_unit(OSCUnit::Distance(OSCDistance::Centimeter));

    let par2 = OscQueryParameter::new(
        "/group/test2".to_string(),
        OscValue::Float("1.0".to_string()),
    )
    .with_description("My First Description".to_string())
    .with_min_max("0.0".to_string(), "10.0".to_string())
    .with_access(OSCAccess::ReadWrite)
    .with_unit(OSCUnit::Distance(OSCDistance::Meter));

    let par3 = OscQueryParameter::new(
        "/group/test/subtest".to_string(),
        OscValue::Float("1.0".to_string()),
    )
    .with_description("My First Description".to_string())
    .with_min_max("0.0".to_string(), "10.0".to_string())
    .with_access(OSCAccess::ReadWrite)
    .with_unit(OSCUnit::Distance(OSCDistance::Meter));

    root.add(par1).unwrap();
    root.add(par2).unwrap();
    root.add(par3).unwrap();

    let serialized = root.to_json();
    println!("{}\n\n", serialized);

    let serialized = root.get("/group/test".to_string()).unwrap().to_json();

    println!("{}\n\n", serialized);
}

#[test]
fn one_parameter_with_everything() {
    let mut root = OSCNode::root(None);
    let par = OscQueryParameter::new(
        "/group/test".to_string(),
        OscValue::Float("1.0".to_string()),
    )
    .with_min_max("0.0".to_string(), "10.0".to_string())
    .with_unit(OSCUnit::Distance(OSCDistance::Centimeter))
    .with_access(OSCAccess::ReadWrite)
    .with_description("d".to_string());
    root.add(par).unwrap();

    let node = root.get("/group/test".to_string()).unwrap();
    assert_eq!(node.full_path, "/group/test");
    assert_eq!(
        node.to_json(),
        r#"{"DESCRIPTION":"d","FULL_PATH":"/group/test","ACCESS":3,"TYPE":"f","VALUE":[1.0],"RANGE":[{"MIN":0.0,"MAX":10.0}],"UNIT":["distance.cm"]}"#
    );
}

#[test]
fn same_address_twice_accumulates() {
    let mut root = OSCNode::root(None);
    root.add(OscQueryParameter::new(
        "/group/test".to_string(),
        OscValue::Float("1.0".to_string()),
    ))
    .unwrap();
    root.add(OscQueryParameter::new(
        "/group/test".to_string(),
        OscValue::Float("2.0".to_string()),
    ))
    .unwrap();

    let node = root.get("/group/test".to_string()).unwrap();
    assert_eq!(
        node.to_json(),
        r#"{"DESCRIPTION":"","FULL_PATH":"/group/test","TYPE":"ff","VALUE":[1.0,2.0]}"#
    );
}

#[test]
fn host_info_port_and_flags() {
    let root = OSCNode::root(Some(Box::new(OscHostInfo::new(
        "Server".to_string(),
        "127.0.0.1".to_string(),
        9000,
    ))));
    assert_eq!(
        root.to_json(),
        r#"{"DESCRIPTION":"","FULL_PATH":"/","ACCESS":0,"HOST_INFO":{"NAME":"Server","OSC_IP":"127.0.0.1","OSC_PORT":9000,"OSC_TRANSPORT":"UDP","EXTENSIONS":{"ACCESS":false,"VALUE":false,"RANGE":false,"DESCRIPTION":false,"TAGS":false,"EXTENDED_TYPE":false,"UNIT":false,"CRITICAL":false,"CLIPMODE":false,"LISTEN":false,"PATH_CHANGED":false}}}"#
    );

    let enabled = OscHostInfo::new("Server".to_string(), "127.0.0.1".to_string(), 9000)
        .with_ext_access()
        .with_ext_value()
        .with_ext_range()
        .with_ext_description()
        .with_ext_tags()
        .with_ext_extended_type()
        .with_ext_unit()
        .with_ext_critical()
        .with_ext_clipmode()
        .with_ext_listen()
        .with_ext_path_changed();
    assert!(enabled.extension.access && enabled.extension.path_changed);
}

#[test]
fn lookup_root_and_missing() {
    let mut root = OSCNode::root(None);
    root.add(OscQueryParameter::new(
        "/a/b".to_string(),
        OscValue::Int(1),
    ))
    .unwrap();

    let found = root.get("/".to_string()).unwrap();
    assert_eq!(found.full_path, "/");

    match root.get("/missing/address".to_string()) {
        Err(OscQueryError::BadAddress(p)) => assert_eq!(p, "/missing/address"),
        other => panic!("expected a bad-address error, got {:?}", other),
    }

    let b = root.get("/a/b".to_string()).unwrap();
    assert_eq!(b.full_path, "/a/b");
    let a = root.get("/a/".to_string()).unwrap();
    assert_eq!(a.full_path, "/a");
}

#[test]
fn insertion_order_does_not_matter() {
    let params = |(a, v): (&str, i32)| {
        OscQueryParameter::new(a.to_string(), OscValue::Int(v))
            .with_description("x".to_string())
    };
    let addresses = [("/b/y", 1), ("/a", 2), ("/b/x", 3), ("/c/d/e", 4)];

    let mut one = OSCNode::root(None);
    for p in addresses.iter() {
        one.add(params(*p)).unwrap();
    }

    let mut other = OSCNode::root(None);
    for p in addresses.iter().rev() {
        other.add(params(*p)).unwrap();
    }

    assert_eq!(one.to_json(), other.to_json());
}

#[test]
fn values_of_every_scalar_kind() {
    let mut root = OSCNode::root(None);
    for (addr, v) in [
        ("/int", OscValue::Int(-12)),
        ("/long", OscValue::Long(i64::MIN)),
        ("/text", OscValue::Str("he said \"hi\"\n".to_string())),
        ("/blob", OscValue::Blob(vec![1, 2, 255])),
        ("/chr", OscValue::Char('q')),
        ("/flag", OscValue::Bool(true)),
        ("/dbl", OscValue::Double("2.5".to_string())),
    ] {
        root.add(OscQueryParameter::new(addr.to_string(), v)).unwrap();
    }
    let json = root.to_json();
    assert!(json.contains(r#""VALUE":[-12]"#));
    assert!(json.contains(r#""VALUE":[-9223372036854775808]"#));
    assert!(json.contains(r#""VALUE":["he said \"hi\"\n"]"#));
    assert!(json.contains(r#""VALUE":[[1,2,255]]"#));
    assert!(json.contains(r#""VALUE":["q"]"#));
    assert!(json.contains(r#""VALUE":[true]"#));
    assert!(json.contains(r#""VALUE":[2.5]"#));
}

#[test]
fn serializable_rejects_scalarless_values() {
    let mut root = OSCNode::root(None);
    root.add(OscQueryParameter::new("/ok".to_string(), OscValue::Int(1)))
        .unwrap();
    assert!(root.serializable());
    root.add(OscQueryParameter::new("/nil".to_string(), OscValue::Nil))
        .unwrap();
    assert!(!root.serializable());
}

#[test]
fn query_answers() {
    let mut root = OSCNode::root(Some(Box::new(OscHostInfo::new(
        "Server".to_string(),
        "127.0.0.1".to_string(),
        9000,
    ))));
    root.add(
        OscQueryParameter::new("/group/test".to_string(), OscValue::Float("1.0".to_string()))
            .with_access(OSCAccess::ReadWrite),
    )
    .unwrap();

    match root.handle_query("/group/test".to_string(), None) {
        OscQueryResponse::Body(b) => assert_eq!(
            b,
            r#"{"DESCRIPTION":"","FULL_PATH":"/group/test","ACCESS":3,"TYPE":"f","VALUE":[1.0]}"#
        ),
        other => panic!("expected a body, got {:?}", other),
    }

    match root.handle_query("/group/test".to_string(), Some("VALUE".to_string())) {
        OscQueryResponse::Body(b) => assert_eq!(b, r#"{"VALUE":[1.0]}"#),
        other => panic!("expected a body, got {:?}", other),
    }

    match root.handle_query("/group/test".to_string(), Some("TYPE".to_string())) {
        OscQueryResponse::Body(b) => assert_eq!(b, r#""f""#),
        other => panic!("expected a body, got {:?}", other),
    }

    match root.handle_query("/".to_string(), Some("HOST_INFO".to_string())) {
        OscQueryResponse::Body(b) => assert!(b.starts_with(r#"{"NAME":"Server""#)),
        other => panic!("expected a body, got {:?}", other),
    }

    match root.handle_query("/group/test".to_string(), Some("COLOR".to_string())) {
        OscQueryResponse::NotSupported => {},
        other => panic!("expected not-supported, got {:?}", other),
    }

    match root.handle_query("/absent".to_string(), None) {
        OscQueryResponse::NotFound => {},
        other => panic!("expected not-found, got {:?}", other),
    }

    match root.handle_query("/group/test".to_string(), Some("HOST_INFO".to_string())) {
        OscQueryResponse::NotFound => {},
        other => panic!("expected not-found for a node without host info, got {:?}", other),
    }
}
