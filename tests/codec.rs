use msdb::blocks::{BlockError, BlockQueue, Cell, IncompleteIdentifier, LinkTarget, LinkType};

const I: [u8; 8] = [1, 2, 3, 4, 5, 6, 7, 8];
const J: [u8; 8] = [9, 9, 9, 9, 9, 9, 9, 9];

fn long_frame(opcode: u8, id: [u8; 8], payload: &[u8]) -> Vec<u8> {
    let mut f = vec![opcode << 1];
    f.extend_from_slice(&(payload.len() as u32).to_be_bytes());
    f.extend_from_slice(&id);
    f.extend_from_slice(payload);
    f
}

fn sample_cells() -> Vec<Cell> {
    vec![
        Cell::Literal("Alice".to_string(), I),
        Cell::Blob(vec![0, 255, 7], J),
        Cell::Link(LinkType::Forward, LinkTarget::SameBlock(J), I),
        Cell::Link(LinkType::Reverse, LinkTarget::AnotherField(I, J), I),
        Cell::Link(LinkType::Forward, LinkTarget::AnotherStruct(I, J, [3; 8]), J),
        Cell::Literal("héllo wörld".to_string(), J),
        Cell::Blob(vec![], I),
    ]
}

fn decode(blocks: &[Vec<u8>], d: u32) -> Result<Vec<Cell>, BlockError> {
    let mut q = BlockQueue::new();
    for b in blocks {
        q.import_from_vec(b.clone());
    }
    q.raw_to_cell(d).map(|_| q.cells)
}

#[test]
fn round_trip_single_block() {
    for d in [1u32, 5, 8, 32] {
        let mut q = BlockQueue::new();
        for c in sample_cells() {
            q.import_cell(c);
        }
        q.cell_to_raw(None, d);
        assert_eq!(q.queue.len(), 1);
        assert_eq!(decode(&q.queue, d).unwrap(), sample_cells());
    }
}

#[test]
fn round_trip_many_blocks() {
    let mut q = BlockQueue::new();
    for c in sample_cells() {
        q.import_cell(c);
    }
    q.cell_to_raw(Some(20), 5);
    assert!(q.queue.len() > 1);
    assert_eq!(decode(&q.queue, 5).unwrap(), sample_cells());
}

#[test]
fn oversized_frame_gets_its_own_block() {
    let mut q = BlockQueue::new();
    q.import_cell(Cell::Literal("x".to_string(), I));
    q.import_cell(Cell::Blob(vec![1; 40], I));
    q.import_cell(Cell::Literal("y".to_string(), I));
    q.cell_to_raw(Some(30), 1);
    assert_eq!(q.queue.len(), 3);
    assert_eq!(q.queue[1].len(), 13 + 40);
}

#[test]
fn size_flag_short_form() {
    let mut q = BlockQueue::new();
    q.import_cell(Cell::Literal("abcd".to_string(), I));
    q.cell_to_raw(None, 4);
    let b = &q.queue[0];
    assert_eq!(b.len(), 1 + 8 + 4);
    assert_eq!(b[0], (1 << 1) | 1);
    assert_eq!(&b[1..9], &I);
    assert_eq!(&b[9..], b"abcd");
}

#[test]
fn size_flag_long_form() {
    let mut q = BlockQueue::new();
    q.import_cell(Cell::Literal("abcd".to_string(), I));
    q.cell_to_raw(None, 3);
    let b = &q.queue[0];
    assert_eq!(b.len(), 1 + 4 + 8 + 4);
    assert_eq!(b[0], 1 << 1);
    assert_eq!(&b[1..5], &[0, 0, 0, 4]);
}

#[test]
fn link_opcodes() {
    let mut q = BlockQueue::new();
    q.import_cell(Cell::Link(LinkType::Reverse, LinkTarget::AnotherStruct(I, J, I), J));
    q.cell_to_raw(None, 0);
    assert_eq!(q.queue[0][0], 15 << 1);
    assert_eq!(q.queue[0].len(), 13 + 24);
}

#[test]
fn fragment_reassembly() {
    let mut block = Vec::new();
    block.extend(long_frame(17, I, &[0, 0, b'A', b'B']));
    block.extend(long_frame(21, I, &[1, 0, b'C', b'D']));
    block.extend(long_frame(21, I, &[2, 1, b'E', b'F']));
    let cells = decode(&[block], 32).unwrap();
    assert!(cells.contains(&Cell::Literal("ABCDEF".to_string(), I)));
    assert_eq!(cells.last(), Some(&Cell::Literal("ABCDEF".to_string(), I)));
    assert_eq!(
        cells[0],
        Cell::LiteralIncomplete(b"AB".to_vec(), IncompleteIdentifier { identifier: I, num: 0, is_final: false })
    );
    assert_eq!(
        cells[1],
        Cell::LiteralIncomplete(b"CD".to_vec(), IncompleteIdentifier { identifier: I, num: 1, is_final: false })
    );
}

#[test]
fn blob_fragments_reassemble_as_blob() {
    let mut block = Vec::new();
    block.extend(long_frame(19, J, &[0, 0, 1, 2]));
    block.extend(long_frame(21, J, &[1, 1, 3]));
    let cells = decode(&[block], 32).unwrap();
    assert_eq!(cells.len(), 2);
    assert_eq!(cells[1], Cell::Blob(vec![1, 2, 3], J));
}

#[test]
fn incomplete_continuation_stays_fragment() {
    let mut block = Vec::new();
    block.extend(long_frame(17, I, &[0, 0, b'A']));
    block.extend(long_frame(21, I, &[2, 1, b'C']));
    let cells = decode(&[block], 32).unwrap();
    assert_eq!(
        cells[1],
        Cell::LiteralIncomplete(b"C".to_vec(), IncompleteIdentifier { identifier: I, num: 2, is_final: true })
    );
}

#[test]
fn block_decode_errors() {
    assert_eq!(decode(&[vec![2, 1, 2]], 32), Err(BlockError::Truncated));
    assert_eq!(decode(&[long_frame(0, I, b"x")], 32), Err(BlockError::IllegalOpcode));
    assert_eq!(decode(&[long_frame(5, I, &[1, 2, 3])], 32), Err(BlockError::ShortLink));
    assert_eq!(decode(&[long_frame(21, I, &[1, 7])], 32), Err(BlockError::BadFragment));
    assert_eq!(decode(&[long_frame(1, I, &[0xff, 0xfe])], 32), Err(BlockError::InvalidText));
}

#[test]
fn failed_decode_keeps_cells() {
    let mut q = BlockQueue::new();
    q.import_cell(Cell::Literal("keep".to_string(), I));
    let mut good = long_frame(3, I, &[1]);
    good.extend(long_frame(0, I, &[]));
    q.import_from_vec(good);
    assert_eq!(q.raw_to_cell(1), Err(BlockError::IllegalOpcode));
    assert_eq!(q.cells, vec![Cell::Literal("keep".to_string(), I)]);
}

#[test]
fn unknown_opcode_is_skipped() {
    let mut block = long_frame(23, I, b"zz");
    block.extend(long_frame(3, J, b"q"));
    assert_eq!(decode(&[block], 32).unwrap(), vec![Cell::Blob(b"q".to_vec(), J)]);
}

#[test]
fn from_vec_decodes_one_block() {
    let mut q = BlockQueue::new();
    q.import_cell(Cell::Literal("obj".to_string(), I));
    q.cell_to_raw(None, 32);
    let r = BlockQueue::from_vec(q.queue[0].clone(), 32).unwrap();
    assert_eq!(r.cells, vec![Cell::Literal("obj".to_string(), I)]);
    assert_eq!(r.queue.len(), 1);
}

#[test]
fn delete_by_owner() {
    let mut q = BlockQueue::new();
    for c in sample_cells() {
        q.import_cell(c);
    }
    q.import_cell(Cell::LiteralIncomplete(vec![1], IncompleteIdentifier { identifier: I, num: 0, is_final: false }));
    q.delete_cell(I);
    assert_eq!(
        q.cells,
        vec![
            Cell::Blob(vec![0, 255, 7], J),
            Cell::Link(LinkType::Forward, LinkTarget::AnotherStruct(I, J, [3; 8]), J),
            Cell::Literal("héllo wörld".to_string(), J),
        ]
    );
}

#[test]
fn delete_literal_by_content() {
    let mut q = BlockQueue::new();
    q.import_cell(Cell::Literal("a".to_string(), I));
    q.import_cell(Cell::Literal("b".to_string(), J));
    q.import_cell(Cell::Literal("a".to_string(), J));
    q.import_cell(Cell::Blob(b"a".to_vec(), I));
    q.delete_literal_cell_based_on_content("a");
    assert_eq!(q.cells, vec![Cell::Literal("b".to_string(), J), Cell::Blob(b"a".to_vec(), I)]);
}

#[test]
fn clean_cells_keeps_blocks() {
    let mut q = BlockQueue::new();
    q.import_cell(Cell::Literal("a".to_string(), I));
    q.cell_to_raw(None, 1);
    q.clean_cells();
    assert!(q.cells.is_empty());
    assert_eq!(q.queue.len(), 1);
}

#[test]
fn cell_descriptions() {
    assert_eq!(Cell::Literal("hi".to_string(), I).describe(), "[Literal](0102030405060708) hi");
    assert_eq!(Cell::Blob(vec![0xab], J).describe(), "[Blob](0909090909090909) ab");
    assert_eq!(
        Cell::Link(LinkType::Reverse, LinkTarget::AnotherField(J, I), I).describe(),
        "[ReverseLink](0102030405060708) 0909090909090909 -> 0102030405060708"
    );
    assert_eq!(
        Cell::BlobIncomplete(vec![1], IncompleteIdentifier { identifier: I, num: 12, is_final: true }).describe(),
        "[BlobIncomplete](0102030405060708 - F12) 01"
    );
}

#[test]
fn encoding_appends_after_queued_blocks() {
    let mut q = BlockQueue::new();
    q.import_from_vec(vec![1, 2, 3]);
    q.cell_to_raw(None, 1);
    assert_eq!(q.queue, vec![vec![1, 2, 3]]);
    q.import_cell(Cell::Literal("a".to_string(), I));
    q.cell_to_raw(None, 1);
    assert_eq!(q.queue.len(), 2);
    assert_eq!(q.queue[0], vec![1, 2, 3]);
    let mut expected = vec![3u8];
    expected.extend_from_slice(&I);
    expected.push(b'a');
    assert_eq!(q.queue[1], expected);
}
