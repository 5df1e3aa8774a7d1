use msdb::blocks::{BlockQueue, Cell, LinkTarget, LinkType};
use msdb::crypto::{decrypt_block, new_salt, password_deriv};
use msdb::engine::{
    alter_cell, clear_cache, create_cell, create_field, create_object, create_structure, delete_cell,
    delete_object, delete_structure, install_structure, list_cells, make_cell, open_metadata,
    open_structure, parse_link, select_object, unload, EngineError, Structure,
};
use msdb::hexid::{from_hex, into_hex};
use msdb::location::DatabaseLocation;
use msdb::metadata::Metadata;

const KEY: [u8; 32] = [7; 32];
const SID: [u8; 8] = [0x11; 8];

fn session() -> (DatabaseLocation, Vec<([u8; 8], Structure)>) {
    let mut meta = Metadata::create();
    meta.new_attribute("type", "struct");
    meta.new_attribute("size", "32");
    meta.new_sub_data("list", "aaaaaaaaaaaaaaaa");
    let s = open_structure(meta, None, &KEY).unwrap();
    let mut cache = Vec::new();
    install_structure(&mut cache, SID, s);
    let mut loc = DatabaseLocation::new();
    loc.select_root("db".to_string());
    loc.select_structure((SID, "users".to_string()));
    (loc, cache)
}

fn owned(cells: &[Cell], id: [u8; 8]) -> Vec<&Cell> {
    cells
        .iter()
        .filter(|c| match c {
            Cell::Literal(_, o) | Cell::Blob(_, o) | Cell::Link(_, _, o) => *o == id,
            Cell::LiteralIncomplete(_, h) | Cell::BlobIncomplete(_, h) => h.identifier == id,
        })
        .collect()
}

fn field_cells<'a>(cache: &'a [([u8; 8], Structure)], name: &str) -> &'a Vec<Cell> {
    let s = &cache[0].1;
    let id = from_hex(s.metadata.get_sub_data(name).unwrap()).unwrap();
    &s.cached_block.iter().find(|(f, _)| *f == id).unwrap().1.cells
}

#[test]
fn structure_creation() {
    let mut main = Metadata::create();
    let plan = create_structure("users", None, &mut main, &KEY).unwrap();
    let hex = main.get_sub_data("users").unwrap().clone();
    assert_eq!(hex, into_hex(plan.identifier));
    assert_eq!(hex.len(), 16);
    let m = open_metadata(&plan.metadata, plan.nonce, &KEY).unwrap();
    assert_eq!(m.get_attribute("type").map(|s| s.as_str()), Some("struct"));
    assert_eq!(m.get_attribute("size").map(|s| s.as_str()), Some("32"));
    assert_eq!(m.get_sub_data("list").cloned(), Some(into_hex(plan.list_identifier)));
    assert_eq!(create_structure("users", Some(8), &mut main, &KEY).err(), Some(EngineError::AlreadyExists));
    let p2 = create_structure("other", Some(8), &mut main, &KEY).unwrap();
    let m2 = open_metadata(&p2.metadata, p2.nonce, &KEY).unwrap();
    assert_eq!(m2.get_attribute("size").map(|s| s.as_str()), Some("8"));
}

#[test]
fn structure_deletion() {
    let mut main = Metadata::create();
    create_structure("users", None, &mut main, &KEY).unwrap();
    assert_eq!(delete_structure("users", &mut main), Ok(()));
    assert!(main.get_sub_data("users").is_none());
    assert_eq!(delete_structure("users", &mut main), Err(EngineError::NotFound));
}

#[test]
fn object_creation_is_unique() {
    let (mut loc, mut cache) = session();
    let id = create_object("alice", &loc, &mut cache).unwrap();
    assert_eq!(create_object("alice", &loc, &mut cache), Err(EngineError::AlreadyExists));
    let hits: Vec<_> = cache[0]
        .1
        .list
        .cells
        .iter()
        .filter(|c| matches!(c, Cell::Literal(t, _) if t == "alice"))
        .collect();
    assert_eq!(hits, vec![&Cell::Literal("alice".to_string(), id)]);
    select_object("alice", &mut loc, &cache).unwrap();
    assert_eq!(loc.current_object_identifier(), Some(id));
    assert_eq!(loc.current_object_pretty_name(), Some("alice"));
    assert_eq!(select_object("bob", &mut loc, &cache), Err(EngineError::NotFound));
}

#[test]
fn object_needs_structure() {
    let loc = DatabaseLocation::new();
    let mut cache = Vec::new();
    assert_eq!(create_object("x", &loc, &mut cache), Err(EngineError::NoStructure));
    let mut loc = DatabaseLocation::new();
    loc.select_root("db".to_string());
    loc.select_structure((SID, "users".to_string()));
    assert_eq!(create_object("x", &loc, &mut cache), Err(EngineError::NotCached));
}

#[test]
fn object_deletion() {
    let (loc, mut cache) = session();
    create_object("alice", &loc, &mut cache).unwrap();
    create_object("bob", &loc, &mut cache).unwrap();
    delete_object("alice", &loc, &mut cache).unwrap();
    assert_eq!(cache[0].1.list.cells.len(), 1);
    assert!(matches!(&cache[0].1.list.cells[0], Cell::Literal(t, _) if t == "bob"));
}

#[test]
fn cell_creation_makes_field() {
    let (mut loc, mut cache) = session();
    create_object("alice", &loc, &mut cache).unwrap();
    select_object("alice", &mut loc, &cache).unwrap();
    let oid = loc.current_object_identifier().unwrap();
    let plan = create_cell("name", "literal", "Alice", vec![], &loc, &mut cache, &KEY).unwrap().unwrap();
    let fm = open_metadata(&plan.metadata, plan.nonce, &KEY).unwrap();
    assert_eq!(fm.get_attribute("size").map(|s| s.as_str()), Some("5"));
    assert_eq!(field_cells(&cache, "name"), &vec![Cell::Literal("Alice".to_string(), oid)]);
    let again = create_cell("name", "blob", "ignored", vec![1, 2], &loc, &mut cache, &KEY).unwrap();
    assert!(again.is_none());
    assert_eq!(field_cells(&cache, "name").len(), 2);
}

#[test]
fn reserved_field_name() {
    let (mut loc, mut cache) = session();
    create_object("alice", &loc, &mut cache).unwrap();
    select_object("alice", &mut loc, &cache).unwrap();
    assert_eq!(
        create_cell("list", "literal", "X", vec![], &loc, &mut cache, &KEY).err(),
        Some(EngineError::ReservedName)
    );
    assert_eq!(
        alter_cell("list", "literal", "X", vec![], &loc, &mut cache, &KEY).err(),
        Some(EngineError::ReservedName)
    );
}

#[test]
fn cell_needs_object() {
    let (loc, mut cache) = session();
    assert_eq!(
        create_cell("name", "literal", "X", vec![], &loc, &mut cache, &KEY).err(),
        Some(EngineError::NoObject)
    );
}

#[test]
fn alter_leaves_one_cell() {
    let (mut loc, mut cache) = session();
    create_object("alice", &loc, &mut cache).unwrap();
    create_object("bob", &loc, &mut cache).unwrap();
    select_object("bob", &mut loc, &cache).unwrap();
    create_cell("age", "literal", "40", vec![], &loc, &mut cache, &KEY).unwrap();
    loc.deselect_object();
    select_object("alice", &mut loc, &cache).unwrap();
    let oid = loc.current_object_identifier().unwrap();
    create_cell("age", "literal", "30", vec![], &loc, &mut cache, &KEY).unwrap();
    create_cell("age", "literal", "31", vec![], &loc, &mut cache, &KEY).unwrap();
    alter_cell("age", "blob", "ignored", vec![9], &loc, &mut cache, &KEY).unwrap();
    let cells = field_cells(&cache, "age");
    assert_eq!(owned(cells, oid), vec![&Cell::Blob(vec![9], oid)]);
    assert_eq!(cells.len(), 2);
    alter_cell("fresh", "literal", "v", vec![], &loc, &mut cache, &KEY).unwrap();
    assert_eq!(field_cells(&cache, "fresh"), &vec![Cell::Literal("v".to_string(), oid)]);
}

#[test]
fn cell_deletion() {
    let (mut loc, mut cache) = session();
    create_object("alice", &loc, &mut cache).unwrap();
    select_object("alice", &mut loc, &cache).unwrap();
    create_cell("name", "literal", "Alice", vec![], &loc, &mut cache, &KEY).unwrap();
    delete_cell("name", &loc, &mut cache).unwrap();
    assert!(field_cells(&cache, "name").is_empty());
    assert_eq!(delete_cell("nope", &loc, &mut cache), Err(EngineError::NotFound));
}

#[test]
fn field_creation() {
    let (loc, mut cache) = session();
    let plan = create_field("f", 12, &loc, &mut cache, &KEY).unwrap();
    assert_eq!(cache[0].1.metadata.get_sub_data("f").cloned(), Some(into_hex(plan.identifier)));
    assert_eq!(cache[0].1.cached_block.len(), 1);
    assert_eq!(create_field("f", 12, &loc, &mut cache, &KEY).err(), Some(EngineError::AlreadyExists));
    let plain = decrypt_block(&plan.metadata, &KEY, plan.nonce).unwrap();
    assert_eq!(plain, b"size=12;$".to_vec());
}

#[test]
fn link_parsing() {
    assert_eq!(
        parse_link("0011223344556677"),
        Ok(LinkTarget::SameBlock([0x00, 0x11, 0x22, 0x33, 0x44, 0x55, 0x66, 0x77]))
    );
    assert_eq!(
        parse_link("aabbccdd00112233/0011223344556677"),
        Ok(LinkTarget::AnotherField(
            [0xaa, 0xbb, 0xcc, 0xdd, 0x00, 0x11, 0x22, 0x33],
            [0x00, 0x11, 0x22, 0x33, 0x44, 0x55, 0x66, 0x77]
        ))
    );
    assert_eq!(
        parse_link("0000000000000001/0000000000000002/0000000000000003"),
        Ok(LinkTarget::AnotherStruct([0, 0, 0, 0, 0, 0, 0, 1], [0, 0, 0, 0, 0, 0, 0, 2], [0, 0, 0, 0, 0, 0, 0, 3]))
    );
    assert_eq!(
        parse_link("0000000000000001/0000000000000002/0000000000000003/0000000000000004"),
        Err(EngineError::BadLink)
    );
    assert_eq!(parse_link("xyz"), Err(EngineError::BadIdentifier));
    assert_eq!(parse_link("0011"), Err(EngineError::BadIdentifier));
}

#[test]
fn make_cell_kinds() {
    let o = [5u8; 8];
    assert_eq!(make_cell("literal", "hi", vec![], o), Ok(Cell::Literal("hi".to_string(), o)));
    assert_eq!(make_cell("other", "hi", vec![], o), Ok(Cell::Literal("hi".to_string(), o)));
    assert_eq!(make_cell("blob", "path", vec![3], o), Ok(Cell::Blob(vec![3], o)));
    assert_eq!(
        make_cell("revlink", "0011223344556677", vec![], o),
        Ok(Cell::Link(LinkType::Reverse, LinkTarget::SameBlock([0, 0x11, 0x22, 0x33, 0x44, 0x55, 0x66, 0x77]), o))
    );
}

#[test]
fn listing_cells() {
    let (mut loc, mut cache) = session();
    let alice = create_object("alice", &loc, &mut cache).unwrap();
    select_object("alice", &mut loc, &cache).unwrap();
    create_cell("name", "literal", "Alice", vec![], &loc, &mut cache, &KEY).unwrap();
    create_cell("pic", "blob", "p", vec![0xab, 0x01], &loc, &mut cache, &KEY).unwrap();
    create_cell("self", "link", &into_hex(alice), vec![], &loc, &mut cache, &KEY).unwrap();
    let main = Metadata::create();
    let lines = list_cells(&loc, &cache, &main).unwrap();
    assert_eq!(
        lines,
        vec![
            "name : \"Alice\"".to_string(),
            "pic: ab01".to_string(),
            "self: Forward Link to alice's same cell".to_string()
        ]
    );
}

#[test]
fn cache_cleaning_and_unloading() {
    let (mut loc, mut cache) = session();
    create_object("alice", &loc, &mut cache).unwrap();
    select_object("alice", &mut loc, &cache).unwrap();
    create_cell("name", "literal", "Alice", vec![], &loc, &mut cache, &KEY).unwrap();
    clear_cache(&mut cache);
    assert!(cache[0].1.list.cells.is_empty());
    assert!(cache[0].1.cached_block[0].1.cells.is_empty());
    unload(&mut cache, SID);
    assert!(cache.is_empty());
}

#[test]
fn structure_list_is_decoded() {
    let mut list = BlockQueue::new();
    list.import_cell(Cell::Literal("alice".to_string(), [1; 8]));
    list.cell_to_raw(None, 32);
    let sealed = msdb::crypto::encrypt_block(&list.queue[0], &KEY);
    let mut meta = Metadata::create();
    meta.new_attribute("size", "32");
    let s = open_structure(meta, Some(sealed), &KEY).unwrap();
    assert_eq!(s.list.cells, vec![Cell::Literal("alice".to_string(), [1; 8])]);
    let no_size = Metadata::create();
    assert!(open_structure(no_size, None, &KEY).is_err());
}

#[test]
fn salts_are_random_and_keys_derive() {
    let a = new_salt();
    let b = new_salt();
    assert_ne!(a, b);
    assert!(password_deriv("pw", a).is_some());
}

#[test]
fn detailed_listing() {
    let (mut loc, mut cache) = session();
    let alice = create_object("alice", &loc, &mut cache).unwrap();
    select_object("alice", &mut loc, &cache).unwrap();
    let plan = create_cell("name", "literal", "Alice", vec![], &loc, &mut cache, &KEY).unwrap().unwrap();
    create_cell("name", "revlink", "0011223344556677/8899aabbccddeeff", vec![], &loc, &mut cache, &KEY).unwrap();
    let main = Metadata::create();
    let lines = msdb::engine::debug_list_cells(&loc, &cache, &main).unwrap();
    let label = format!("name[{}]", into_hex(plan.identifier));
    assert_eq!(
        lines,
        vec![
            format!("{} : [Literal] Alice", label),
            format!("{}: [Link] Reverse - 0011223344556677/8899aabbccddeeff", label)
        ]
    );
    loc.deselect_object();
    assert_eq!(msdb::engine::list_objects(false, &loc, &cache).unwrap(), vec!["alice".to_string()]);
    assert_eq!(
        msdb::engine::list_objects(true, &loc, &cache).unwrap(),
        vec![format!("alice -> {}", into_hex(alice))]
    );
}

#[test]
fn sync_writes_dense_block_files() {
    let (mut loc, mut cache) = session();
    let mut main = Metadata::create();
    main.new_attribute("type", "msdb");
    for name in ["a", "b"] {
        create_object(name, &loc, &mut cache).unwrap();
        select_object(name, &mut loc, &cache).unwrap();
        create_cell("pic", "blob", "p", vec![7; 40000], &loc, &mut cache, &KEY).unwrap();
        loc.deselect_object();
    }
    let fid = from_hex(cache[0].1.metadata.get_sub_data("pic").unwrap()).unwrap();
    let plan = msdb::engine::sync(&mut main, &mut cache, &KEY).unwrap();
    let dir = format!("{}/{}", into_hex(SID), into_hex(fid));
    assert_eq!(plan.directories, vec![dir.clone()]);
    let paths: Vec<String> = plan.files.iter().map(|f| f.path.clone()).collect();
    assert_eq!(
        paths,
        vec![
            "metadata".to_string(),
            format!("{}/aaaaaaaaaaaaaaaa", into_hex(SID)),
            format!("{}/0.blk", dir),
            format!("{}/1.blk", dir),
            format!("{}/metadata", into_hex(SID)),
        ]
    );
    assert!(!main.has_modified());
    assert!(!cache[0].1.metadata.has_modified());
    let again = msdb::engine::sync(&mut main, &mut cache, &KEY).unwrap();
    assert_eq!(again.files.len(), 3);
}
