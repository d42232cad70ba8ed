use std::collections::HashMap;

use oxidized_relay::schema::{
    extract_fields, DescriptorSet, FieldDescriptor, FileDescriptor, MessageDescriptor, Schema, SchemaError,
};

fn field(number: i32, name: &str) -> FieldDescriptor {
    FieldDescriptor { number, name: name.to_string() }
}

fn message(name: &str, fields: Vec<FieldDescriptor>, nested: Vec<MessageDescriptor>) -> MessageDescriptor {
    MessageDescriptor { name: name.to_string(), fields, nested }
}

fn descriptors() -> DescriptorSet {
    DescriptorSet {
        files: vec![
            FileDescriptor {
                package: String::new(),
                messages: vec![
                    message("LoginReq", vec![field(1, "account"), field(2, "password")], vec![]),
                    message(
                        "Outer",
                        vec![field(1, "outer_id")],
                        vec![message("Inner", vec![field(3, "depth")], vec![])],
                    ),
                ],
            },
            FileDescriptor {
                package: String::new(),
                messages: vec![
                    message("game.MoveReq", vec![field(1, "x"), field(2, "y")], vec![]),
                    message("Inner", vec![field(9, "shadowed")], vec![]),
                ],
            },
        ],
    }
}

fn names(pairs: &[(u32, &str)]) -> HashMap<u32, String> {
    pairs.iter().map(|(n, s)| (*n, s.to_string())).collect()
}

#[test]
fn load_maps_msgids_to_types_and_fields() {
    let s = Schema::load(&descriptors(), "1001:LoginReq, 1002:MoveReq ,,1003:Missing").unwrap();
    assert_eq!(s.messages.len(), 3);
    let (name, fields) = s.get(1001).unwrap();
    assert_eq!(name, "LoginReq");
    assert_eq!(fields, &names(&[(1, "account"), (2, "password")]));
    let (name, fields) = s.get(1002).unwrap();
    assert_eq!(name, "MoveReq");
    assert_eq!(fields, &names(&[(1, "x"), (2, "y")]));
    let (name, fields) = s.get(1003).unwrap();
    assert_eq!(name, "Missing");
    assert!(fields.is_empty());
    assert!(s.get(1004).is_none());
}

#[test]
fn load_finds_nested_messages_in_the_first_file_that_has_one() {
    // File one has `Inner` nested inside `Outer`; that match comes before the
    // top-level `Inner` of file two.
    let s = Schema::load(&descriptors(), "5:Inner").unwrap();
    assert_eq!(s.get(5).unwrap().1, names(&[(3, "depth")]));
}

#[test]
fn load_bad_msgid() {
    let r = Schema::load(&descriptors(), "1001:LoginReq,abc:MoveReq,x:y");
    assert!(matches!(r, Err(SchemaError::BadMsgid(ref id)) if id == "abc"));
    let r = Schema::load(&descriptors(), "99999999999:LoginReq");
    assert!(matches!(r, Err(SchemaError::BadMsgid(ref id)) if id == "99999999999"));
    let r = Schema::load(&descriptors(), " :LoginReq");
    assert!(matches!(r, Err(SchemaError::BadMsgid(ref id)) if id.is_empty()));
}

#[test]
fn load_signed_msgids_and_missing_type() {
    let s = Schema::load(&descriptors(), "-5:LoginReq,+6:Outer,7").unwrap();
    assert_eq!(s.get(-5).unwrap().0, "LoginReq");
    assert_eq!(s.get(6).unwrap().1, names(&[(1, "outer_id")]));
    let (name, fields) = s.get(7).unwrap();
    assert_eq!(name, "");
    assert!(fields.is_empty());
}

#[test]
fn load_later_msgid_overrides() {
    let s = Schema::load(&descriptors(), "1:LoginReq,1:Outer").unwrap();
    assert_eq!(s.messages.len(), 1);
    assert_eq!(s.get(1).unwrap().0, "Outer");
}

#[test]
fn load_empty_map() {
    let s = Schema::load(&descriptors(), "").unwrap();
    assert!(s.messages.is_empty());
    let s = Schema::load(&descriptors(), " , ,").unwrap();
    assert!(s.messages.is_empty());
}

#[test]
fn load_type_name_keeps_later_colons() {
    let s = Schema::load(&descriptors(), "3: a:b ").unwrap();
    assert_eq!(s.get(3).unwrap().0, "a:b");
}

#[test]
fn extract_fields_suffix_match() {
    let want: Vec<char> = "MoveReq".chars().collect();
    assert_eq!(extract_fields(&descriptors(), &want), names(&[(1, "x"), (2, "y")]));
    let exact: Vec<char> = "game.MoveReq".chars().collect();
    assert_eq!(extract_fields(&descriptors(), &exact), names(&[(1, "x"), (2, "y")]));
    let partial: Vec<char> = "eReq".chars().collect();
    assert!(extract_fields(&descriptors(), &partial).is_empty());
}

#[test]
fn extract_fields_duplicate_numbers_keep_last() {
    let set = DescriptorSet {
        files: vec![FileDescriptor {
            package: String::new(),
            messages: vec![message("Dup", vec![field(1, "first"), field(1, "second")], vec![])],
        }],
    };
    let want: Vec<char> = "Dup".chars().collect();
    assert_eq!(extract_fields(&set, &want), names(&[(1, "second")]));
}

fn packaged() -> DescriptorSet {
    DescriptorSet {
        files: vec![FileDescriptor {
            package: "pkg".to_string(),
            messages: vec![
                message("LoginReq", vec![field(1, "account_id")], vec![]),
                message("Outer", vec![], vec![message("Inner", vec![field(4, "deep")], vec![])]),
            ],
        }],
    }
}

fn chars(s: &str) -> Vec<char> {
    s.chars().collect()
}

#[test]
fn extract_fields_fully_qualified_names() {
    let set = packaged();
    assert_eq!(extract_fields(&set, &chars("pkg.LoginReq")), names(&[(1, "account_id")]));
    assert_eq!(extract_fields(&set, &chars(".pkg.LoginReq")), names(&[(1, "account_id")]));
    assert_eq!(extract_fields(&set, &chars("LoginReq")), names(&[(1, "account_id")]));
    assert_eq!(extract_fields(&set, &chars("pkg.Outer.Inner")), names(&[(4, "deep")]));
    assert_eq!(extract_fields(&set, &chars("Inner")), names(&[(4, "deep")]));
    assert!(extract_fields(&set, &chars("other.LoginReq")).is_empty());
    assert!(extract_fields(&set, &chars("pkg.Inner")).is_empty());
}

#[test]
fn load_with_qualified_type_name() {
    let s = Schema::load(&packaged(), "1001:pkg.LoginReq").unwrap();
    let (name, fields) = s.get(1001).unwrap();
    assert_eq!(name, "pkg.LoginReq");
    assert_eq!(fields, &names(&[(1, "account_id")]));
}
