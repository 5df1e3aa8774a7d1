use msdb::metadata::{Metadata, MetadataError};

#[test]
fn metadata_round_trip() {
    let mut m = Metadata::create();
    m.new_attribute("type", "msdb");
    m.new_attribute("ver", "4");
    m.new_attribute("", "");
    m.new_sub_data("users", "0011223344556677");
    m.new_sub_data("ünï", "cödé");
    let back = Metadata::from_vec(m.to_vec()).unwrap();
    let mut a: Vec<_> = back.attribute().clone();
    let mut b: Vec<_> = m.attribute().clone();
    a.sort();
    b.sort();
    assert_eq!(a, b);
    let mut a: Vec<_> = back.sub_data().clone();
    let mut b: Vec<_> = m.sub_data().clone();
    a.sort();
    b.sort();
    assert_eq!(a, b);
    assert!(back.has_modified());
}

#[test]
fn encoding_layout() {
    let mut m = Metadata::create();
    m.new_attribute("type", "struct");
    m.new_sub_data("list", "ab");
    assert_eq!(m.to_vec(), b"type=struct;$list=ab;".to_vec());
    assert_eq!(m.into_vec(), b"type=struct;$list=ab;".to_vec());
}

#[test]
fn new_attribute_replaces_value() {
    let mut m = Metadata::create();
    assert!(!m.has_modified());
    m.new_attribute("k", "1");
    m.new_attribute("k", "2");
    assert_eq!(m.get_attribute("k").map(|s| s.as_str()), Some("2"));
    assert_eq!(m.attribute().len(), 1);
    m.new_sub_data("s", "1");
    m.new_sub_data("s", "2");
    assert_eq!(m.get_sub_data("s").map(|s| s.as_str()), Some("1"));
    assert!(m.has_modified());
    m.set_not_modified();
    assert!(!m.has_modified());
}

#[test]
fn decode_rules() {
    let m = Metadata::from_vec(b";;a=1;;b=2=3;$x=y;$ignored".to_vec()).unwrap();
    assert_eq!(m.get_attribute("a").map(|s| s.as_str()), Some("1"));
    assert_eq!(m.get_attribute("b").map(|s| s.as_str()), Some("2"));
    assert_eq!(m.get_sub_data("x").map(|s| s.as_str()), Some("y"));
    assert_eq!(m.attribute().len(), 2);
    let m = Metadata::from_vec(b"a=1;a=2;$".to_vec()).unwrap();
    assert_eq!(m.get_attribute("a").map(|s| s.as_str()), Some("2"));
}

#[test]
fn metadata_decode_errors() {
    assert_eq!(Metadata::from_vec(b"a=1;".to_vec()).err(), Some(MetadataError::MissingSection));
    assert_eq!(Metadata::from_vec(b"a;$".to_vec()).err(), Some(MetadataError::MalformedToken));
    assert_eq!(Metadata::from_vec(b"$b".to_vec()).err(), Some(MetadataError::MalformedToken));
    assert_eq!(Metadata::from_vec(vec![0xff, b'$']).err(), Some(MetadataError::InvalidText));
}

#[test]
fn import_merges() {
    let mut m = Metadata::create();
    m.new_attribute("a", "old");
    m.new_attribute("keep", "1");
    m.import(b"a=new;$s=1;".to_vec()).unwrap();
    assert_eq!(m.get_attribute("a").map(|s| s.as_str()), Some("new"));
    assert_eq!(m.get_attribute("keep").map(|s| s.as_str()), Some("1"));
    assert_eq!(m.get_sub_data("s").map(|s| s.as_str()), Some("1"));
    assert_eq!(m.import(b"bad".to_vec()), Err(MetadataError::MissingSection));
}

#[test]
fn delete_and_clear() {
    let mut m = Metadata::create();
    m.new_sub_data("a", "1");
    m.new_sub_data("b", "2");
    m.delete_sub_data("a");
    assert!(m.get_sub_data("a").is_none());
    assert_eq!(m.get_sub_data("b").map(|s| s.as_str()), Some("2"));
    m.clear();
    assert!(m.sub_data().is_empty());
    assert!(m.attribute().is_empty());
}
