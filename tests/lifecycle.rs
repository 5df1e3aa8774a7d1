use std::collections::HashMap;

use msdb::crypto::{decrypt_block, encrypt_block, nonce_from_bytes, password_deriv, salt_from_bytes};
use msdb::decimal::{decimal, parse_decimal};
use msdb::engine::{
    create_cell, create_object, create_structure, initial_metadata, install_field, install_structure,
    list_cells, loadable_fields, new_database, open_field, open_metadata, open_structure, select_database,
    select_object, sync, OpenError, Structure, DATABASE_VERSION,
};
use msdb::hexid::{from_hex, into_hex};
use msdb::location::{leave, DatabaseLocation};
use msdb::metadata::Metadata;

type Disk = HashMap<String, (Vec<u8>, [u8; 24])>;

fn write_plan(disk: &mut Disk, plan: msdb::engine::SyncPlan) {
    for f in plan.files {
        disk.insert(f.path, (f.data, f.nonce));
    }
}

fn open_db(disk: &Disk, password: &str, salt: [u8; 32]) -> Result<(Metadata, [u8; 32]), OpenError> {
    let key = password_deriv(password, salt).unwrap();
    let (c, n) = &disk["metadata"];
    select_database(c, *n, &key, DATABASE_VERSION, true).map(|(m, _)| (m, key))
}

fn select_structure(
    disk: &Disk,
    name: &str,
    main: &Metadata,
    key: &[u8; 32],
    loc: &mut DatabaseLocation,
    cache: &mut Vec<([u8; 8], Structure)>,
) {
    let hex = main.get_sub_data(name).unwrap().clone();
    let (c, n) = &disk[&format!("{}/metadata", hex)];
    let meta = open_metadata(c, *n, key).unwrap();
    let list_path = format!("{}/{}", hex, meta.get_sub_data("list").unwrap());
    let list = disk.get(&list_path).cloned();
    let s = open_structure(meta, list, key).unwrap();
    let id = from_hex(&hex).unwrap();
    install_structure(cache, id, s);
    loc.select_structure((id, name.to_string()));
}

#[test]
fn lifecycle_smoke() {
    let mut disk: Disk = HashMap::new();
    let salt = [42u8; 32];
    let (c, n) = new_database("secret", salt, DATABASE_VERSION).unwrap();
    disk.insert("metadata".to_string(), (c, n));

    let (mut main, key) = open_db(&disk, "secret", salt).unwrap();
    let mut loc = DatabaseLocation::new();
    let mut cache: Vec<([u8; 8], Structure)> = Vec::new();
    loc.select_root("db1".to_string());
    let plan = create_structure("users", None, &mut main, &key).unwrap();
    disk.insert(format!("{}/metadata", into_hex(plan.identifier)), (plan.metadata, plan.nonce));
    select_structure(&disk, "users", &main, &key, &mut loc, &mut cache);
    create_object("alice", &loc, &mut cache).unwrap();
    select_object("alice", &mut loc, &cache).unwrap();
    let field = create_cell("name", "literal", "Alice", vec![], &loc, &mut cache, &key).unwrap().unwrap();
    disk.insert(
        format!("{}/{}/metadata", into_hex(plan.identifier), into_hex(field.identifier)),
        (field.metadata, field.nonce),
    );
    let p = sync(&mut main, &mut cache, &key).unwrap();
    write_plan(&mut disk, p);
    assert!(disk.contains_key(&format!("{}/{}/0.blk", into_hex(plan.identifier), into_hex(field.identifier))));

    drop(cache);
    loc.logout();
    let (main, key) = open_db(&disk, "secret", salt).unwrap();
    let mut loc = DatabaseLocation::new();
    let mut cache: Vec<([u8; 8], Structure)> = Vec::new();
    loc.select_root("db1".to_string());
    select_structure(&disk, "users", &main, &key, &mut loc, &mut cache);
    let sid = loc.current_structure_identifier().unwrap();
    for (fname, fid) in loadable_fields(&cache[0].1, None) {
        let mut blocks = Vec::new();
        let mut k = 0;
        while let Some(b) = disk.get(&format!("{}/{}/{}.blk", into_hex(sid), into_hex(fid), k)) {
            blocks.push(b.clone());
            k += 1;
        }
        assert_eq!(fname, "name");
        let q = open_field(blocks, &key).unwrap();
        install_field(&mut cache, sid, fid, q).unwrap();
    }
    select_object("alice", &mut loc, &cache).unwrap();
    assert_eq!(loc.pwd(), "users/alice");
    let lines = list_cells(&loc, &cache, &main).unwrap();
    assert_eq!(lines, vec!["name : \"Alice\"".to_string()]);
    leave(&mut loc);
    assert_eq!(loc.pwd(), "users");
    leave(&mut loc);
    assert_eq!(loc.pwd(), "~");
    leave(&mut loc);
    assert_eq!(loc.pwd(), "~");
}

#[test]
fn wrong_password() {
    let salt = [1u8; 32];
    let (c, n) = new_database("right", salt, DATABASE_VERSION).unwrap();
    let key = password_deriv("wrong", salt).unwrap();
    assert_eq!(select_database(&c, n, &key, DATABASE_VERSION, true).err(), Some(OpenError::WrongPassword));
}

#[test]
fn version_mismatch() {
    let salt = [2u8; 32];
    let (c, n) = new_database("pw", salt, 3).unwrap();
    let key = password_deriv("pw", salt).unwrap();
    assert_eq!(select_database(&c, n, &key, 4, true).err(), Some(OpenError::VersionMismatch));
    let (m, same) = select_database(&c, n, &key, 4, false).unwrap();
    assert!(!same);
    assert_eq!(m.get_attribute("ver").map(|s| s.as_str()), Some("3"));
    assert!(select_database(&c, n, &key, 3, true).unwrap().1);
}

#[test]
fn not_a_database() {
    let key = [3u8; 32];
    let mut m = Metadata::create();
    m.new_attribute("type", "struct");
    let (c, n) = encrypt_block(&m.to_vec(), &key);
    assert_eq!(select_database(&c, n, &key, 4, true).err(), Some(OpenError::NotDatabase));
    let mut m = Metadata::create();
    m.new_attribute("type", "msdb");
    m.new_attribute("ver", "four");
    let (c, n) = encrypt_block(&m.to_vec(), &key);
    assert_eq!(select_database(&c, n, &key, 4, true).err(), Some(OpenError::NoVersion));
    let (c, n) = encrypt_block(b"no sections", &key);
    assert_eq!(select_database(&c, n, &key, 4, true).err(), Some(OpenError::Corrupt));
}

#[test]
fn initial_metadata_text() {
    assert_eq!(initial_metadata(4).to_vec(), b"ver=4;type=msdb;$".to_vec());
}

#[test]
fn crypto_round_trip() {
    let key = password_deriv("password", [9u8; 32]).unwrap();
    let (c, n) = encrypt_block(b"hello block", &key);
    assert_eq!(c.len(), b"hello block".len() + 16);
    assert_ne!(&c[16..], b"hello block");
    assert_eq!(decrypt_block(&c, &key, n), Some(b"hello block".to_vec()));
    let other = password_deriv("other", [9u8; 32]).unwrap();
    assert_eq!(decrypt_block(&c, &other, n), None);
    let mut flipped = c.clone();
    flipped[20] ^= 1;
    assert_eq!(decrypt_block(&flipped, &key, n), None);
}

#[test]
fn key_derivation_is_deterministic() {
    let a = password_deriv("password", [5u8; 32]).unwrap();
    let b = password_deriv("password", [5u8; 32]).unwrap();
    assert_eq!(a, b);
    let c = password_deriv("password", [6u8; 32]).unwrap();
    assert_ne!(a, c);
}

#[test]
fn nonce_and_salt_lengths() {
    assert_eq!(nonce_from_bytes(&[1u8; 24]), Some([1u8; 24]));
    assert_eq!(nonce_from_bytes(&[1u8; 23]), None);
    assert_eq!(salt_from_bytes(&[2u8; 32]), Some([2u8; 32]));
    assert_eq!(salt_from_bytes(&[2u8; 33]), None);
}

#[test]
fn decimal_text() {
    assert_eq!(decimal(0), "0");
    assert_eq!(decimal(512), "512");
    assert_eq!(decimal(4294967295), "4294967295");
    assert_eq!(parse_decimal("65536"), Some(65536));
    assert_eq!(parse_decimal("4294967296"), None);
    assert_eq!(parse_decimal(""), None);
    assert_eq!(parse_decimal("+1"), None);
}

#[test]
fn hex_identifiers() {
    let id = [0x00, 0x11, 0xaa, 0xff, 0x01, 0x23, 0x45, 0x67];
    assert_eq!(into_hex(id), "0011aaff01234567");
    assert_eq!(from_hex("0011AAFF01234567"), Some(id));
    assert_eq!(from_hex("0011aaff0123456789"), Some(id));
    assert_eq!(from_hex("0011aaff012345"), None);
    assert_eq!(from_hex("0011aaff0123456g"), None);
}

#[test]
fn location_gates_and_text() {
    let mut loc = DatabaseLocation::new();
    assert_eq!(loc.pwd(), "");
    loc.select_root("db".to_string());
    assert_eq!(loc.pwd(), "~");
    assert_eq!(loc.root_folder().map(|s| s.as_str()), Some("db"));
    loc.select_structure(([1; 8], "s".to_string()));
    loc.select_object(([2; 8], "o".to_string()));
    loc.select_cell(([3; 8], "c".to_string()));
    assert_eq!(loc.pwd(), "s/o: c");
    assert_eq!(loc.current_cell_identifier(), Some([3; 8]));
    assert_eq!(loc.current_cell_pretty_name(), Some("c"));
    assert_eq!(loc.current_structure_pretty_name(), Some("s"));
    loc.deselect_cell();
    assert_eq!(loc.pwd(), "s/o");
    loc.deselect_structure();
    assert_eq!(loc.current_object_identifier(), None);
    loc.select_structure(([1; 8], "s".to_string()));
    loc.select_object(([2; 8], "o".to_string()));
    loc.select_root("other".to_string());
    assert_eq!(loc.current_object_identifier(), None);
    assert_eq!(loc.pwd(), "~");
    loc.logout();
    assert!(loc.root_folder().is_none());
}
