//! Cells and the block codec: a self-describing frame format that packs typed
//! cells into byte blocks and reads them back, reassembling fragmented cells.
use vstd::prelude::*;
use vstd::utf8::*;
use vstd::string::*;
use crate::decimal::{decimal, decimal_text};
use crate::hexid::{encode_hex, hex_of};
use crate::metadata::{chars_of, push_chars, string_of};

verus! {

broadcast use vstd::seq_lib::group_seq_properties;

/// Direction of a link.
#[derive(Clone, Copy, Debug, PartialEq, Eq, Structural)]
pub enum LinkType {
    Forward,
    Reverse,
}

/// Where a link points.
#[derive(Clone, Copy, Debug, PartialEq, Eq)]
pub enum LinkTarget {
    /// A cell of the same field.
    SameBlock([u8; 8]),
    /// A field of the same structure, and a cell in it.
    AnotherField([u8; 8], [u8; 8]),
    /// A structure, a field in it, and a cell in that field.
    AnotherStruct([u8; 8], [u8; 8], [u8; 8]),
}

/// Header of a fragment: the identifier shared by the fragments of one cell,
/// the fragment's position and whether it is the last one.
#[derive(Clone, Copy, Debug, PartialEq, Eq)]
pub struct IncompleteIdentifier {
    pub identifier: [u8; 8],
    pub num: u8,
    pub is_final: bool,
}

/// One value of a field. The identifier of a whole cell names the object that
/// owns it.
#[derive(Debug, PartialEq, Eq)]
pub enum Cell {
    Literal(String, [u8; 8]),
    Blob(Vec<u8>, [u8; 8]),
    Link(LinkType, LinkTarget, [u8; 8]),
    LiteralIncomplete(Vec<u8>, IncompleteIdentifier),
    BlobIncomplete(Vec<u8>, IncompleteIdentifier),
}

/// Why a block could not be read.
#[derive(Clone, Copy, Debug, PartialEq, Eq, Structural)]
pub enum BlockError {
    /// A frame runs past the end of its block.
    Truncated,
    /// A frame carries the opcode 0.
    IllegalOpcode,
    /// A link frame is too short for its target.
    ShortLink,
    /// A fragment frame lacks its header, or its final flag is neither 0 nor 1.
    BadFragment,
    /// A literal is not valid UTF-8.
    InvalidText,
}

/// A link target with identifiers as byte sequences.
pub enum TargetView {
    SameBlock(Seq<u8>),
    AnotherField(Seq<u8>, Seq<u8>),
    AnotherStruct(Seq<u8>, Seq<u8>, Seq<u8>),
}

/// A cell as a mathematical value.
pub enum CellView {
    Literal(Seq<char>, Seq<u8>),
    Blob(Seq<u8>, Seq<u8>),
    Link(LinkType, TargetView, Seq<u8>),
    LiteralIncomplete(Seq<u8>, Seq<u8>, u8, bool),
    BlobIncomplete(Seq<u8>, Seq<u8>, u8, bool),
}

impl View for LinkTarget {
    type V = TargetView;

    open spec fn view(&self) -> TargetView {
        match *self {
            LinkTarget::SameBlock(c) => TargetView::SameBlock(c@),
            LinkTarget::AnotherField(f, c) => TargetView::AnotherField(f@, c@),
            LinkTarget::AnotherStruct(s, f, c) => TargetView::AnotherStruct(s@, f@, c@),
        }
    }
}

impl View for Cell {
    type V = CellView;

    open spec fn view(&self) -> CellView {
        match self {
            Cell::Literal(s, o) => CellView::Literal(s@, o@),
            Cell::Blob(b, o) => CellView::Blob(b@, o@),
            Cell::Link(t, g, o) => CellView::Link(*t, g@, o@),
            Cell::LiteralIncomplete(b, h) => CellView::LiteralIncomplete(
                b@,
                h.identifier@,
                h.num,
                h.is_final,
            ),
            Cell::BlobIncomplete(b, h) => CellView::BlobIncomplete(
                b@,
                h.identifier@,
                h.num,
                h.is_final,
            ),
        }
    }
}

/// The views of a sequence of cells.
pub open spec fn cells_view(cells: Seq<Cell>) -> Seq<CellView> {
    cells.map_values(|c: Cell| c@)
}

/// Whether a cell is a fragment.
pub open spec fn is_fragment(c: CellView) -> bool {
    c is LiteralIncomplete || c is BlobIncomplete
}

/// The identifier written in a cell's frame: the owner of a whole cell, the
/// shared identifier of a fragment.
pub open spec fn identifier_of(c: CellView) -> Seq<u8> {
    match c {
        CellView::Literal(_, o) => o,
        CellView::Blob(_, o) => o,
        CellView::Link(_, _, o) => o,
        CellView::LiteralIncomplete(_, i, _, _) => i,
        CellView::BlobIncomplete(_, i, _, _) => i,
    }
}

/// The frame opcode of a cell.
pub open spec fn opcode_of(c: CellView) -> u8 {
    match c {
        CellView::Literal(_, _) => 1,
        CellView::Blob(_, _) => 3,
        CellView::Link(t, g, _) => {
            let base: u8 = match g {
                TargetView::SameBlock(_) => 5,
                TargetView::AnotherField(_, _) => 7,
                TargetView::AnotherStruct(_, _, _) => 9,
            };
            if t is Reverse {
                (base + 6) as u8
            } else {
                base
            }
        },
        CellView::LiteralIncomplete(_, _, n, _) => if n == 0 {
            17
        } else {
            21
        },
        CellView::BlobIncomplete(_, _, n, _) => if n == 0 {
            19
        } else {
            21
        },
    }
}

/// The header byte pair of a fragment frame: position, then final flag.
pub open spec fn fragment_header(n: u8, f: bool) -> Seq<u8> {
    seq![n, if f { 1u8 } else { 0u8 }]
}

/// The payload of a cell's frame.
pub open spec fn payload_of(c: CellView) -> Seq<u8> {
    match c {
        CellView::Literal(s, _) => encode_utf8(s),
        CellView::Blob(b, _) => b,
        CellView::Link(_, g, _) => match g {
            TargetView::SameBlock(x) => x,
            TargetView::AnotherField(f, x) => f + x,
            TargetView::AnotherStruct(s, f, x) => s + f + x,
        },
        CellView::LiteralIncomplete(b, _, n, f) => fragment_header(n, f) + b,
        CellView::BlobIncomplete(b, _, n, f) => fragment_header(n, f) + b,
    }
}

/// Big-endian four-byte form of a length.
pub open spec fn be32(n: nat) -> Seq<u8> {
    seq![
        ((n / 0x1000000) % 0x100) as u8,
        ((n / 0x10000) % 0x100) as u8,
        ((n / 0x100) % 0x100) as u8,
        (n % 0x100) as u8,
    ]
}

/// The value of four big-endian bytes.
pub open spec fn be32_value(b: Seq<u8>) -> nat {
    (b[0] as nat) * 0x1000000 + (b[1] as nat) * 0x10000 + (b[2] as nat) * 0x100 + (b[3] as nat)
}

/// The frame of a cell: tag byte, then the length unless the payload has the
/// default size, then the identifier and the payload.
pub open spec fn frame_of(c: CellView, d: u32) -> Seq<u8> {
    let p = payload_of(c);
    if p.len() == d {
        seq![(2 * opcode_of(c) + 1) as u8] + identifier_of(c) + p
    } else {
        seq![(2 * opcode_of(c)) as u8] + be32(p.len()) + identifier_of(c) + p
    }
}

/// Whether a frame may join a block that already holds `cur` bytes.
pub open spec fn fits(cur: nat, frame: nat, max: Option<u32>) -> bool {
    match max {
        None => true,
        Some(m) => cur + frame <= m,
    }
}

/// Packing frames into blocks: the finished blocks and the block being filled.
pub open spec fn pack(cells: Seq<CellView>, max: Option<u32>, d: u32) -> (Seq<Seq<u8>>, Seq<u8>)
    decreases cells.len(),
{
    if cells.len() == 0 {
        (seq![], seq![])
    } else {
        let (done, cur) = pack(cells.drop_last(), max, d);
        let f = frame_of(cells.last(), d);
        if cur.len() > 0 && !fits(cur.len(), f.len(), max) {
            (done.push(cur), f)
        } else {
            (done, cur + f)
        }
    }
}

/// The blocks that a sequence of cells encodes to.
pub open spec fn encode_blocks(cells: Seq<CellView>, max: Option<u32>, d: u32) -> Seq<Seq<u8>> {
    let (done, cur) = pack(cells, max, d);
    if cur.len() > 0 {
        done.push(cur)
    } else {
        done
    }
}

/// Whether every cell's payload length fits the four-byte length field.
pub open spec fn encodable(cells: Seq<CellView>) -> bool {
    forall|i: int| 0 <= i < cells.len() ==> payload_of(#[trigger] cells[i]).len() <= u32::MAX
}

/// A block queue: raw blocks as read from or written to disk, and the cells
/// they hold.
pub struct BlockQueue {
    pub queue: Vec<Vec<u8>>,
    pub cells: Vec<Cell>,
}

/// Appends bytes to a buffer.
pub(crate) fn push_bytes(dst: &mut Vec<u8>, src: &[u8])
    ensures
        final(dst)@ == old(dst)@ + src@,
{
    let mut i: usize = 0;
    while i < src.len()
        invariant
            i <= src@.len(),
            dst@ == old(dst)@ + src@.subrange(0, i as int),
        decreases src@.len() - i,
    {
        dst.push(src[i]);
        i += 1;
        assert(src@.subrange(0, i as int) == src@.subrange(0, i - 1) + seq![src@[i - 1]]);
    }
    assert(src@.subrange(0, i as int) == src@);
}

/// The payload of a cell's frame.
fn cell_payload(c: &Cell) -> (r: Vec<u8>)
    ensures
        r@ == payload_of(c@),
{
    let mut p: Vec<u8> = Vec::new();
    match c {
        Cell::Literal(s, _) => {
            push_bytes(&mut p, s.as_str().as_bytes());
        },
        Cell::Blob(b, _) => {
            push_bytes(&mut p, b.as_slice());
        },
        Cell::Link(_, g, _) => match g {
            LinkTarget::SameBlock(x) => {
                push_bytes(&mut p, x.as_slice());
            },
            LinkTarget::AnotherField(f, x) => {
                push_bytes(&mut p, f.as_slice());
                push_bytes(&mut p, x.as_slice());
            },
            LinkTarget::AnotherStruct(s, f, x) => {
                push_bytes(&mut p, s.as_slice());
                push_bytes(&mut p, f.as_slice());
                push_bytes(&mut p, x.as_slice());
            },
        },
        Cell::LiteralIncomplete(b, h) | Cell::BlobIncomplete(b, h) => {
            p.push(h.num);
            p.push(if h.is_final { 1u8 } else { 0u8 });
            push_bytes(&mut p, b.as_slice());
        },
    }
    p
}

/// The frame opcode of a cell.
fn cell_opcode(c: &Cell) -> (r: u8)
    ensures
        r == opcode_of(c@),
{
    match c {
        Cell::Literal(_, _) => 1,
        Cell::Blob(_, _) => 3,
        Cell::Link(t, g, _) => {
            let base: u8 = match g {
                LinkTarget::SameBlock(_) => 5,
                LinkTarget::AnotherField(_, _) => 7,
                LinkTarget::AnotherStruct(_, _, _) => 9,
            };
            match t {
                LinkType::Reverse => base + 6,
                LinkType::Forward => base,
            }
        },
        Cell::LiteralIncomplete(_, h) => if h.num == 0 {
            17
        } else {
            21
        },
        Cell::BlobIncomplete(_, h) => if h.num == 0 {
            19
        } else {
            21
        },
    }
}

/// The identifier written in a cell's frame.
fn cell_identifier(c: &Cell) -> (r: [u8; 8])
    ensures
        r@ == identifier_of(c@),
{
    match c {
        Cell::Literal(_, o) => *o,
        Cell::Blob(_, o) => *o,
        Cell::Link(_, _, o) => *o,
        Cell::LiteralIncomplete(_, h) => h.identifier,
        Cell::BlobIncomplete(_, h) => h.identifier,
    }
}

/// The identifier written in a cell's frame: its owner, or the identifier its
/// fragments share.
pub fn frame_identifier(c: &Cell) -> (r: [u8; 8])
    ensures
        r@ == identifier_of(c@),
{
    cell_identifier(c)
}

/// The frame of a cell.
fn build_frame(c: &Cell, default_cell_size: u32) -> (r: Vec<u8>)
    requires
        payload_of(c@).len() <= u32::MAX,
    ensures
        r@ == frame_of(c@, default_cell_size),
{
    let p = cell_payload(c);
    let op = cell_opcode(c);
    let id = cell_identifier(c);
    let mut f: Vec<u8> = Vec::new();
    if p.len() == default_cell_size as usize {
        f.push(2 * op + 1);
    } else {
        let n = p.len() as u32;
        f.push(2 * op);
        f.push((n / 0x1000000) as u8);
        f.push(((n / 0x10000) % 0x100) as u8);
        f.push(((n / 0x100) % 0x100) as u8);
        f.push((n % 0x100) as u8);
        assert(f@ == seq![(2 * op) as u8] + be32(p@.len()));
    }
    push_bytes(&mut f, id.as_slice());
    push_bytes(&mut f, p.as_slice());
    f
}

/// The views of a sequence of byte buffers.
pub open spec fn blocks_view(blocks: Seq<Vec<u8>>) -> Seq<Seq<u8>> {
    blocks.map_values(|b: Vec<u8>| b@)
}

/// Whether a frame of `frame` bytes may join a block of `cur` bytes.
fn frame_fits(cur: usize, frame: usize, max: Option<u32>) -> (r: bool)
    ensures
        r == fits(cur as nat, frame as nat, max),
{
    match max {
        None => true,
        Some(m) => cur <= m as usize && frame <= m as usize - cur,
    }
}

impl BlockQueue {
    /// The cells as mathematical values.
    pub open spec fn cells_view(&self) -> Seq<CellView> {
        cells_view(self.cells@)
    }

    /// The raw blocks as byte sequences.
    pub open spec fn blocks_view(&self) -> Seq<Seq<u8>> {
        blocks_view(self.queue@)
    }

    /// An empty queue.
    pub fn new() -> (r: Self)
        ensures
            r.queue@.len() == 0,
            r.cells@.len() == 0,
    {
        BlockQueue { queue: Vec::new(), cells: Vec::new() }
    }

    /// Adds a raw block at the end of the queue.
    pub fn import_from_vec(&mut self, raw_content: Vec<u8>)
        ensures
            final(self).queue@ == old(self).queue@.push(raw_content),
            final(self).cells == old(self).cells,
    {
        self.queue.push(raw_content);
    }

    /// Encodes the cells into blocks and appends them after the raw blocks
    /// already queued. A new block is started where the next frame would take
    /// the current one past `vector_length` bytes; `None` puts every frame into
    /// one block.
    pub fn cell_to_raw(&mut self, vector_length: Option<u32>, default_cell_size: u32)
        requires
            encodable(old(self).cells_view()),
        ensures
            final(self).cells == old(self).cells,
            final(self).queue@.subrange(0, old(self).queue@.len() as int) == old(self).queue@,
            final(self).blocks_view() == old(self).blocks_view() + encode_blocks(
                old(self).cells_view(),
                vector_length,
                default_cell_size,
            ),
    {
        let ghost cv = self.cells_view();
        let mut done: Vec<Vec<u8>> = Vec::new();
        let mut cur: Vec<u8> = Vec::new();
        let mut i: usize = 0;
        while i < self.cells.len()
            invariant
                i <= self.cells@.len(),
                cv == self.cells_view(),
                encodable(cv),
                (blocks_view(done@), cur@) == pack(cv.take(i as int), vector_length, default_cell_size),
            decreases self.cells@.len() - i,
        {
            assert(cv[i as int] == self.cells@[i as int]@);
            let f = build_frame(&self.cells[i], default_cell_size);
            assert(cv.take(i + 1).drop_last() == cv.take(i as int));
            if cur.len() > 0 && !frame_fits(cur.len(), f.len(), vector_length) {
                let ghost old_done = done@;
                done.push(cur);
                assert(blocks_view(done@) == blocks_view(old_done).push(cur@));
                cur = f;
            } else {
                push_bytes(&mut cur, f.as_slice());
            }
            i += 1;
        }
        assert(cv.take(i as int) == cv);
        if cur.len() > 0 {
            let ghost old_done = done@;
            done.push(cur);
            assert(blocks_view(done@) == blocks_view(old_done).push(cur@));
        }
        let ghost q0 = self.queue@;
        let ghost enc = blocks_view(done@);
        self.queue.append(&mut done);
        assert(self.queue@.subrange(0, q0.len() as int) =~= q0);
        assert(blocks_view(self.queue@) =~= blocks_view(q0) + enc);
    }
}

/// A frame as read from a block.
pub struct FrameView {
    pub opcode: u8,
    pub identifier: Seq<u8>,
    pub payload: Seq<u8>,
}

/// Length of the part of a frame before its identifier.
pub open spec fn header_len(b: Seq<u8>) -> nat {
    if b[0] % 2 == 1 {
        1
    } else {
        5
    }
}

/// Payload length of the frame at the start of `b`.
pub open spec fn payload_len(b: Seq<u8>, d: u32) -> nat {
    if b[0] % 2 == 1 {
        d as nat
    } else {
        be32_value(b.subrange(1, 5))
    }
}

/// The frame at the start of `b` and the number of bytes it takes, or `None`
/// where the frame runs past the end of `b`.
pub open spec fn parse_frame(b: Seq<u8>, d: u32) -> Option<(FrameView, nat)> {
    if b.len() == 0 || (b[0] % 2 == 0 && b.len() < 5) {
        None
    } else {
        let h = header_len(b);
        let l = payload_len(b, d);
        if b.len() < h + 8 + l {
            None
        } else {
            Some(
                (
                    FrameView {
                        opcode: b[0] / 2,
                        identifier: b.subrange(h as int, (h + 8) as int),
                        payload: b.subrange((h + 8) as int, (h + 8 + l) as int),
                    },
                    h + 8 + l,
                ),
            )
        }
    }
}

/// The frames of one block, left to right.
pub open spec fn parse_frames(b: Seq<u8>, d: u32) -> Option<Seq<FrameView>>
    decreases b.len(),
{
    if b.len() == 0 {
        Some(seq![])
    } else {
        match parse_frame(b, d) {
            None => None,
            Some((f, n)) => if 0 < n <= b.len() {
                match parse_frames(b.subrange(n as int, b.len() as int), d) {
                    None => None,
                    Some(fs) => Some(seq![f] + fs),
                }
            } else {
                None
            },
        }
    }
}

/// The frames of a sequence of blocks, block after block.
pub open spec fn parse_blocks(bs: Seq<Seq<u8>>, d: u32) -> Option<Seq<FrameView>>
    decreases bs.len(),
{
    if bs.len() == 0 {
        Some(seq![])
    } else {
        match (parse_blocks(bs.drop_last(), d), parse_frames(bs.last(), d)) {
            (Some(a), Some(b)) => Some(a + b),
            _ => None,
        }
    }
}

/// The link target held by a link frame's payload.
pub open spec fn target_of(op: u8, p: Seq<u8>) -> Option<TargetView> {
    if op == 5 || op == 11 {
        if p.len() >= 8 {
            Some(TargetView::SameBlock(p.subrange(0, 8)))
        } else {
            None
        }
    } else if op == 7 || op == 13 {
        if p.len() >= 16 {
            Some(TargetView::AnotherField(p.subrange(0, 8), p.subrange(8, 16)))
        } else {
            None
        }
    } else {
        if p.len() >= 24 {
            Some(TargetView::AnotherStruct(p.subrange(0, 8), p.subrange(8, 16), p.subrange(16, 24)))
        } else {
            None
        }
    }
}

/// Whether `c` is a fragment of the cell with identifier `id`.
pub open spec fn frag_of(c: CellView, id: Seq<u8>) -> bool {
    is_fragment(c) && identifier_of(c) == id
}

/// Position of a fragment.
pub open spec fn frag_num(c: CellView) -> u8 {
    match c {
        CellView::LiteralIncomplete(_, _, n, _) => n,
        CellView::BlobIncomplete(_, _, n, _) => n,
        _ => 0,
    }
}

/// Final flag of a fragment.
pub open spec fn frag_final(c: CellView) -> bool {
    match c {
        CellView::LiteralIncomplete(_, _, _, f) => f,
        CellView::BlobIncomplete(_, _, _, f) => f,
        _ => false,
    }
}

/// Bytes carried by a fragment.
pub open spec fn frag_bytes(c: CellView) -> Seq<u8> {
    match c {
        CellView::LiteralIncomplete(b, _, _, _) => b,
        CellView::BlobIncomplete(b, _, _, _) => b,
        _ => seq![],
    }
}

/// Whether some fragment of `id` is marked final.
pub open spec fn any_final(cells: Seq<CellView>, id: Seq<u8>) -> bool {
    exists|k: int| 0 <= k < cells.len() && frag_of(cells[k], id) && frag_final(#[trigger] cells[k])
}

/// Whether some fragment of `id` is a blob fragment.
pub open spec fn any_blob(cells: Seq<CellView>, id: Seq<u8>) -> bool {
    exists|k: int|
        0 <= k < cells.len() && (#[trigger] cells[k]) is BlobIncomplete && identifier_of(cells[k])
            == id
}

/// Whether some fragment of `id` has position `j`.
pub open spec fn has_num(cells: Seq<CellView>, id: Seq<u8>, j: int) -> bool {
    exists|k: int| 0 <= k < cells.len() && frag_of(cells[k], id) && frag_num(#[trigger] cells[k]) == j
}

/// The highest position among the fragments of `id`, or -1 where there is none.
pub open spec fn max_num(cells: Seq<CellView>, id: Seq<u8>) -> int
    decreases cells.len(),
{
    if cells.len() == 0 {
        -1
    } else {
        let m = max_num(cells.drop_last(), id);
        if frag_of(cells.last(), id) && frag_num(cells.last()) > m {
            frag_num(cells.last()) as int
        } else {
            m
        }
    }
}

/// The bytes of the last fragment of `id` at position `j`.
pub open spec fn last_bytes(cells: Seq<CellView>, id: Seq<u8>, j: int) -> Seq<u8>
    decreases cells.len(),
{
    if cells.len() == 0 {
        seq![]
    } else if frag_of(cells.last(), id) && frag_num(cells.last()) == j {
        frag_bytes(cells.last())
    } else {
        last_bytes(cells.drop_last(), id, j)
    }
}

/// The bytes of positions `0 .. k` of a fragmented cell, position `n` taken from
/// `body` and the others from the fragments already read.
pub open spec fn assembled(cells: Seq<CellView>, id: Seq<u8>, n: u8, body: Seq<u8>, k: int) -> Seq<u8>
    decreases k,
{
    if k <= 0 {
        seq![]
    } else {
        assembled(cells, id, n, body, k - 1) + if k - 1 == n {
            body
        } else {
            last_bytes(cells, id, k - 1)
        }
    }
}

/// The highest position of a fragmented cell once fragment `n` is read.
pub open spec fn top_num(cells: Seq<CellView>, id: Seq<u8>, n: u8) -> int {
    if max_num(cells, id) > n {
        max_num(cells, id)
    } else {
        n as int
    }
}

/// Whether fragment `n` completes a cell: a final fragment has been seen and
/// every position up to the highest one is present.
pub open spec fn completes(cells: Seq<CellView>, id: Seq<u8>, n: u8, fin: bool) -> bool {
    &&& (fin || any_final(cells, id))
    &&& forall|j: int| 0 <= j <= top_num(cells, id, n) && j != n ==> has_num(cells, id, j)
}

/// The cell that a continuation fragment yields, given the cells read before it.
pub open spec fn continuation_cell(
    cells: Seq<CellView>,
    id: Seq<u8>,
    n: u8,
    fin: bool,
    body: Seq<u8>,
) -> Result<Option<CellView>, BlockError> {
    if completes(cells, id, n, fin) {
        let content = assembled(cells, id, n, body, top_num(cells, id, n) + 1);
        if any_blob(cells, id) {
            Ok(Some(CellView::Blob(content, id)))
        } else if valid_utf8(content) {
            Ok(Some(CellView::Literal(decode_utf8(content), id)))
        } else {
            Err(BlockError::InvalidText)
        }
    } else if any_blob(cells, id) {
        Ok(Some(CellView::BlobIncomplete(body, id, n, fin)))
    } else {
        Ok(Some(CellView::LiteralIncomplete(body, id, n, fin)))
    }
}

/// The cell that a frame yields, given the cells read before it; `None` for an
/// opcode that names no cell kind.
pub open spec fn cell_of_frame(cells: Seq<CellView>, f: FrameView) -> Result<Option<CellView>, BlockError> {
    let op = f.opcode;
    let p = f.payload;
    let id = f.identifier;
    if op == 0 {
        Err(BlockError::IllegalOpcode)
    } else if op == 1 {
        if valid_utf8(p) {
            Ok(Some(CellView::Literal(decode_utf8(p), id)))
        } else {
            Err(BlockError::InvalidText)
        }
    } else if op == 3 {
        Ok(Some(CellView::Blob(p, id)))
    } else if op == 5 || op == 7 || op == 9 || op == 11 || op == 13 || op == 15 {
        match target_of(op, p) {
            None => Err(BlockError::ShortLink),
            Some(g) => Ok(
                Some(
                    CellView::Link(
                        if op >= 11 {
                            LinkType::Reverse
                        } else {
                            LinkType::Forward
                        },
                        g,
                        id,
                    ),
                ),
            ),
        }
    } else if op == 17 || op == 19 || op == 21 {
        if p.len() < 2 || p[1] > 1 {
            Err(BlockError::BadFragment)
        } else {
            let body = p.subrange(2, p.len() as int);
            if op == 17 {
                Ok(Some(CellView::LiteralIncomplete(body, id, 0, false)))
            } else if op == 19 {
                Ok(Some(CellView::BlobIncomplete(body, id, 0, false)))
            } else {
                continuation_cell(cells, id, p[0], p[1] == 1, body)
            }
        }
    } else {
        Ok(None)
    }
}

/// The cells after reading `frames` in order behind `cells`.
pub open spec fn interpret(cells: Seq<CellView>, frames: Seq<FrameView>) -> Result<Seq<CellView>, BlockError>
    decreases frames.len(),
{
    if frames.len() == 0 {
        Ok(cells)
    } else {
        match interpret(cells, frames.drop_last()) {
            Err(e) => Err(e),
            Ok(cs) => match cell_of_frame(cs, frames.last()) {
                Err(e) => Err(e),
                Ok(None) => Ok(cs),
                Ok(Some(c)) => Ok(cs.push(c)),
            },
        }
    }
}

/// The cells after decoding `blocks` behind `cells`.
pub open spec fn decode_blocks(cells: Seq<CellView>, blocks: Seq<Seq<u8>>, d: u32) -> Result<Seq<CellView>, BlockError> {
    match parse_blocks(blocks, d) {
        None => Err(BlockError::Truncated),
        Some(frames) => interpret(cells, frames),
    }
}

/// Relies on String::from_utf8: it accepts exactly the valid UTF-8 byte
/// strings and yields the characters they encode.
#[verifier::external_body]
pub(crate) fn string_from_utf8(b: Vec<u8>) -> (r: Option<String>)
    ensures
        r is Some <==> valid_utf8(b@),
        r is Some ==> r->0@ == decode_utf8(b@),
{
    String::from_utf8(b).ok()
}

/// A frame as read from a block.
pub(crate) struct Frame {
    opcode: u8,
    identifier: [u8; 8],
    payload: Vec<u8>,
}

impl View for Frame {
    type V = FrameView;

    closed spec fn view(&self) -> FrameView {
        FrameView { opcode: self.opcode, identifier: self.identifier@, payload: self.payload@ }
    }
}

spec fn frames_view(fs: Seq<Frame>) -> Seq<FrameView> {
    fs.map_values(|f: Frame| f@)
}

spec fn prepend(a: Seq<FrameView>, r: Option<Seq<FrameView>>) -> Option<Seq<FrameView>> {
    match r {
        None => None,
        Some(x) => Some(a + x),
    }
}

/// Whether an executable decoding result stands for a specified one.
pub open spec fn result_matches(
    r: Result<Option<Cell>, BlockError>,
    s: Result<Option<CellView>, BlockError>,
) -> bool {
    match (r, s) {
        (Ok(Some(c)), Ok(Some(v))) => c@ == v,
        (Ok(None), Ok(None)) => true,
        (Err(e), Err(f)) => e == f,
        _ => false,
    }
}

/// Copies `b[from..to]`.
fn copy_range(b: &Vec<u8>, from: usize, to: usize) -> (r: Vec<u8>)
    requires
        from <= to <= b@.len(),
    ensures
        r@ == b@.subrange(from as int, to as int),
{
    let mut r: Vec<u8> = Vec::new();
    let mut i: usize = from;
    while i < to
        invariant
            from <= i <= to <= b@.len(),
            r@ == b@.subrange(from as int, i as int),
        decreases to - i,
    {
        r.push(b[i]);
        i += 1;
        assert(r@ =~= b@.subrange(from as int, i as int));
    }
    r
}

/// The eight bytes of `b` from `at` as an identifier.
fn identifier_at(b: &Vec<u8>, at: usize) -> (r: [u8; 8])
    requires
        at + 8 <= b@.len(),
    ensures
        r@ == b@.subrange(at as int, at + 8),
{
    let _n = b.len();
    let r: [u8; 8] = [b[at], b[at + 1], b[at + 2], b[at + 3], b[at + 4], b[at + 5], b[at + 6], b[at + 7]];
    assert(r@ =~= b@.subrange(at as int, at + 8));
    r
}

/// Whether two identifiers are equal.
fn same_identifier(a: &[u8; 8], b: &[u8; 8]) -> (r: bool)
    ensures
        r == (a@ == b@),
{
    let mut i: usize = 0;
    while i < 8
        invariant
            i <= 8,
            a@.len() == 8,
            b@.len() == 8,
            forall|k: int| 0 <= k < i ==> a@[k] == b@[k],
        decreases 8 - i,
    {
        if a[i] != b[i] {
            return false;
        }
        i += 1;
    }
    assert(a@ =~= b@);
    true
}

/// Reads the frame that starts at `off`.
fn read_frame(b: &Vec<u8>, off: usize, d: u32) -> (r: Option<(Frame, usize)>)
    requires
        off < b@.len(),
    ensures
        match parse_frame(b@.subrange(off as int, b@.len() as int), d) {
            None => r is None,
            Some((f, n)) => match r {
                Some((g, m)) => g@ == f && m == n,
                None => false,
            },
        },
{
    let ghost sub = b@.subrange(off as int, b@.len() as int);
    let rest = b.len() - off;
    let tag = b[off];
    let h: usize;
    let l: u64;
    if tag % 2 == 1 {
        h = 1;
        l = d as u64;
    } else {
        if rest < 5 {
            return None;
        }
        h = 5;
        l = (b[off + 1] as u64) * 0x1000000 + (b[off + 2] as u64) * 0x10000 + (b[off + 3] as u64)
            * 0x100 + (b[off + 4] as u64);
        assert(sub.subrange(1, 5) =~= seq![b@[off + 1], b@[off + 2], b@[off + 3], b@[off + 4]]);
    }
    assert(h == header_len(sub) && l == payload_len(sub, d));
    if (rest as u64) < h as u64 + 8 + l {
        return None;
    }
    let lu = l as usize;
    let s = off + h;
    let id = identifier_at(b, s);
    let payload = copy_range(b, s + 8, s + 8 + lu);
    assert(id@ =~= sub.subrange(h as int, h + 8));
    assert(payload@ =~= sub.subrange(h + 8, h + 8 + lu));
    Some((Frame { opcode: tag / 2, identifier: id, payload }, h + 8 + lu))
}

/// Reads every frame of a block, appending them to `out`; false where a frame
/// runs past the end of the block.
fn read_block_frames(b: &Vec<u8>, d: u32, out: &mut Vec<Frame>) -> (ok: bool)
    ensures
        ok == parse_frames(b@, d) is Some,
        ok ==> frames_view(final(out)@) == frames_view(old(out)@) + parse_frames(b@, d)->0,
{
    let ghost got: Seq<FrameView> = seq![];
    let mut off: usize = 0;
    while off < b.len()
        invariant
            off <= b@.len(),
            frames_view(out@) == frames_view(old(out)@) + got,
            parse_frames(b@, d) == prepend(got, parse_frames(b@.subrange(off as int, b@.len() as int), d)),
        decreases b@.len() - off,
    {
        let ghost sub = b@.subrange(off as int, b@.len() as int);
        match read_frame(b, off, d) {
            None => {
                return false;
            },
            Some((f, n)) => {
                assert(sub.subrange(n as int, sub.len() as int) =~= b@.subrange(off + n, b@.len() as int));
                let ghost fv = f@;
                let ghost old_out = out@;
                out.push(f);
                assert(frames_view(out@) =~= frames_view(old_out).push(fv));
                proof {
                    match parse_frames(b@.subrange(off + n, b@.len() as int), d) {
                        None => {},
                        Some(x) => {
                            assert(got + (seq![fv] + x) =~= got.push(fv) + x);
                        },
                    }
                    got = got.push(fv);
                }
                off = off + n;
            },
        }
    }
    assert(b@.subrange(off as int, b@.len() as int) =~= Seq::<u8>::empty());
    assert(got + Seq::<FrameView>::empty() =~= got);
    true
}

proof fn lemma_parse_blocks_prefix(bs: Seq<Seq<u8>>, d: u32, k: int)
    requires
        0 <= k <= bs.len(),
        parse_blocks(bs.take(k), d) is None,
    ensures
        parse_blocks(bs, d) is None,
    decreases bs.len() - k,
{
    if k < bs.len() {
        assert(bs.take(k + 1).drop_last() =~= bs.take(k));
        lemma_parse_blocks_prefix(bs, d, k + 1);
    } else {
        assert(bs.take(k) =~= bs);
    }
}

proof fn lemma_interpret_prefix(cells: Seq<CellView>, fs: Seq<FrameView>, k: int, e: BlockError)
    requires
        0 <= k <= fs.len(),
        interpret(cells, fs.take(k)) == Err::<Seq<CellView>, BlockError>(e),
    ensures
        interpret(cells, fs) == Err::<Seq<CellView>, BlockError>(e),
    decreases fs.len() - k,
{
    if k < fs.len() {
        assert(fs.take(k + 1).drop_last() =~= fs.take(k));
        lemma_interpret_prefix(cells, fs, k + 1, e);
    } else {
        assert(fs.take(k) =~= fs);
    }
}

/// What the cells read so far say of the fragments of `id`: whether one is
/// final, whether one is a blob fragment, and the highest position.
fn fragment_summary(cells: &Vec<Cell>, id: &[u8; 8]) -> (r: (bool, bool, i32))
    ensures
        r.0 == any_final(cells_view(cells@), id@),
        r.1 == any_blob(cells_view(cells@), id@),
        r.2 == max_num(cells_view(cells@), id@),
        -1 <= r.2 <= 255,
{
    let ghost cv = cells_view(cells@);
    let mut fin = false;
    let mut blob = false;
    let mut m: i32 = -1;
    let mut i: usize = 0;
    while i < cells.len()
        invariant
            i <= cells@.len(),
            cv == cells_view(cells@),
            fin == exists|k: int| 0 <= k < i && frag_of(cv[k], id@) && frag_final(#[trigger] cv[k]),
            blob == exists|k: int|
                0 <= k < i && (#[trigger] cv[k]) is BlobIncomplete && identifier_of(cv[k]) == id@,
            m == max_num(cv.take(i as int), id@),
            -1 <= m <= 255,
        decreases cells@.len() - i,
    {
        assert(cv.take(i + 1).drop_last() =~= cv.take(i as int));
        assert(cv[i as int] == cells@[i as int]@);
        match &cells[i] {
            Cell::LiteralIncomplete(_, h) => {
                if same_identifier(&h.identifier, id) {
                    if h.is_final {
                        fin = true;
                    }
                    if h.num as i32 > m {
                        m = h.num as i32;
                    }
                }
            },
            Cell::BlobIncomplete(_, h) => {
                if same_identifier(&h.identifier, id) {
                    blob = true;
                    if h.is_final {
                        fin = true;
                    }
                    if h.num as i32 > m {
                        m = h.num as i32;
                    }
                }
            },
            _ => {},
        }
        i += 1;
    }
    assert(cv.take(i as int) =~= cv);
    (fin, blob, m)
}

/// Whether some fragment of `id` read so far has position `j`.
fn has_fragment(cells: &Vec<Cell>, id: &[u8; 8], j: u8) -> (r: bool)
    ensures
        r == has_num(cells_view(cells@), id@, j as int),
{
    let ghost cv = cells_view(cells@);
    let mut i: usize = 0;
    while i < cells.len()
        invariant
            i <= cells@.len(),
            cv == cells_view(cells@),
            forall|k: int| 0 <= k < i ==> !(frag_of(cv[k], id@) && frag_num(#[trigger] cv[k]) == j),
        decreases cells@.len() - i,
    {
        assert(cv[i as int] == cells@[i as int]@);
        match &cells[i] {
            Cell::LiteralIncomplete(_, h) | Cell::BlobIncomplete(_, h) => {
                if h.num == j && same_identifier(&h.identifier, id) {
                    return true;
                }
            },
            _ => {},
        }
        i += 1;
    }
    false
}

/// Appends the bytes of the last fragment of `id` at position `j`.
fn push_last_fragment(cells: &Vec<Cell>, id: &[u8; 8], j: u8, out: &mut Vec<u8>)
    ensures
        final(out)@ == old(out)@ + last_bytes(cells_view(cells@), id@, j as int),
{
    let ghost cv = cells_view(cells@);
    let mut found: Option<usize> = None;
    let mut i: usize = 0;
    while i < cells.len()
        invariant
            i <= cells@.len(),
            cv == cells_view(cells@),
            match found {
                None => last_bytes(cv.take(i as int), id@, j as int) == Seq::<u8>::empty(),
                Some(k) => k < i && last_bytes(cv.take(i as int), id@, j as int) == frag_bytes(
                    cv[k as int],
                ) && is_fragment(cv[k as int]),
            },
        decreases cells@.len() - i,
    {
        assert(cv.take(i + 1).drop_last() =~= cv.take(i as int));
        assert(cv[i as int] == cells@[i as int]@);
        match &cells[i] {
            Cell::LiteralIncomplete(_, h) | Cell::BlobIncomplete(_, h) => {
                if h.num == j && same_identifier(&h.identifier, id) {
                    found = Some(i);
                }
            },
            _ => {},
        }
        i += 1;
    }
    assert(cv.take(i as int) =~= cv);
    match found {
        None => {
            assert(old(out)@ + Seq::<u8>::empty() =~= old(out)@);
        },
        Some(k) => {
            assert(cv[k as int] == cells@[k as int]@);
            match &cells[k] {
                Cell::LiteralIncomplete(b, _) | Cell::BlobIncomplete(b, _) => {
                    push_bytes(out, b.as_slice());
                },
                _ => {},
            }
        },
    }
}

/// The cell that a continuation fragment yields.
fn continuation(cells: &Vec<Cell>, id: [u8; 8], n: u8, fin: bool, body: Vec<u8>) -> (r: Result<
    Option<Cell>,
    BlockError,
>)
    ensures
        result_matches(r, continuation_cell(cells_view(cells@), id@, n, fin, body@)),
{
    let ghost cv = cells_view(cells@);
    let (any_fin, blob, m) = fragment_summary(cells, &id);
    let top: i32 = if m > n as i32 {
        m
    } else {
        n as i32
    };
    assert(top == top_num(cv, id@, n));
    let mut complete = fin || any_fin;
    if complete {
        let mut j: i32 = 0;
        while j <= top
            invariant
                0 <= j <= top + 1,
                top <= 255,
                top == top_num(cv, id@, n),
                cv == cells_view(cells@),
                complete == forall|jj: int| 0 <= jj < j && jj != n ==> has_num(cv, id@, jj),
            decreases top + 1 - j,
        {
            if j != n as i32 && !has_fragment(cells, &id, j as u8) {
                complete = false;
            }
            j += 1;
        }
    }
    assert(complete == completes(cv, id@, n, fin));
    if complete {
        let mut content: Vec<u8> = Vec::new();
        let mut j: i32 = 0;
        while j <= top
            invariant
                0 <= j <= top + 1,
                top <= 255,
                cv == cells_view(cells@),
                content@ == assembled(cv, id@, n, body@, j as int),
            decreases top + 1 - j,
        {
            if j == n as i32 {
                push_bytes(&mut content, body.as_slice());
            } else {
                push_last_fragment(cells, &id, j as u8, &mut content);
            }
            j += 1;
        }
        if blob {
            Ok(Some(Cell::Blob(content, id)))
        } else {
            match string_from_utf8(content) {
                Some(t) => Ok(Some(Cell::Literal(t, id))),
                None => Err(BlockError::InvalidText),
            }
        }
    } else {
        let h = IncompleteIdentifier { identifier: id, num: n, is_final: fin };
        if blob {
            Ok(Some(Cell::BlobIncomplete(body, h)))
        } else {
            Ok(Some(Cell::LiteralIncomplete(body, h)))
        }
    }
}

/// The cell that a frame yields, given the cells read before it.
fn frame_to_cell(cells: &Vec<Cell>, f: &Frame) -> (r: Result<Option<Cell>, BlockError>)
    ensures
        result_matches(r, cell_of_frame(cells_view(cells@), f@)),
{
    let op = f.opcode;
    let p = &f.payload;
    let id = f.identifier;
    let len = p.len();
    if op == 0 {
        Err(BlockError::IllegalOpcode)
    } else if op == 1 {
        match string_from_utf8(copy_range(p, 0, len)) {
            Some(t) => Ok(Some(Cell::Literal(t, id))),
            None => Err(BlockError::InvalidText),
        }
    } else if op == 3 {
        Ok(Some(Cell::Blob(copy_range(p, 0, len), id)))
    } else if op == 5 || op == 7 || op == 9 || op == 11 || op == 13 || op == 15 {
        let dir = if op >= 11 {
            LinkType::Reverse
        } else {
            LinkType::Forward
        };
        if op == 5 || op == 11 {
            if len < 8 {
                return Err(BlockError::ShortLink);
            }
            Ok(Some(Cell::Link(dir, LinkTarget::SameBlock(identifier_at(p, 0)), id)))
        } else if op == 7 || op == 13 {
            if len < 16 {
                return Err(BlockError::ShortLink);
            }
            Ok(
                Some(
                    Cell::Link(
                        dir,
                        LinkTarget::AnotherField(identifier_at(p, 0), identifier_at(p, 8)),
                        id,
                    ),
                ),
            )
        } else {
            if len < 24 {
                return Err(BlockError::ShortLink);
            }
            Ok(
                Some(
                    Cell::Link(
                        dir,
                        LinkTarget::AnotherStruct(
                            identifier_at(p, 0),
                            identifier_at(p, 8),
                            identifier_at(p, 16),
                        ),
                        id,
                    ),
                ),
            )
        }
    } else if op == 17 || op == 19 || op == 21 {
        if len < 2 || p[1] > 1 {
            return Err(BlockError::BadFragment);
        }
        let body = copy_range(p, 2, len);
        if op == 17 {
            Ok(
                Some(
                    Cell::LiteralIncomplete(
                        body,
                        IncompleteIdentifier { identifier: id, num: 0, is_final: false },
                    ),
                ),
            )
        } else if op == 19 {
            Ok(
                Some(
                    Cell::BlobIncomplete(
                        body,
                        IncompleteIdentifier { identifier: id, num: 0, is_final: false },
                    ),
                ),
            )
        } else {
            continuation(cells, id, p[0], p[1] == 1, body)
        }
    } else {
        Ok(None)
    }
}

/// The cells without those whose frame identifier (owner, or fragment
/// identifier) is `id`.
pub open spec fn without_identifier(cells: Seq<CellView>, id: Seq<u8>) -> Seq<CellView>
    decreases cells.len(),
{
    if cells.len() == 0 {
        seq![]
    } else {
        let rest = without_identifier(cells.drop_last(), id);
        if identifier_of(cells.last()) == id {
            rest
        } else {
            rest.push(cells.last())
        }
    }
}

/// Whether `c` is a literal cell with text `text`.
pub open spec fn is_literal_with(c: CellView, text: Seq<char>) -> bool {
    match c {
        CellView::Literal(t, _) => t == text,
        _ => false,
    }
}

/// The cells without the literal cells whose text is `text`.
pub open spec fn without_literal(cells: Seq<CellView>, text: Seq<char>) -> Seq<CellView>
    decreases cells.len(),
{
    if cells.len() == 0 {
        seq![]
    } else {
        let rest = without_literal(cells.drop_last(), text);
        if is_literal_with(cells.last(), text) {
            rest
        } else {
            rest.push(cells.last())
        }
    }
}

proof fn lemma_cells_view_push(v: Seq<Cell>, c: Cell)
    ensures
        cells_view(v.push(c)) == cells_view(v).push(c@),
{
    assert(cells_view(v.push(c)) =~= cells_view(v).push(c@));
}

proof fn lemma_cells_view_remove(v: Seq<Cell>, i: int)
    requires
        0 <= i < v.len(),
    ensures
        cells_view(v.remove(i)) == cells_view(v).subrange(0, i) + cells_view(v).subrange(i + 1, v.len() as int),
{
    assert(cells_view(v.remove(i)) =~= cells_view(v).subrange(0, i) + cells_view(v).subrange(i + 1, v.len() as int));
}

impl BlockQueue {
    /// Decodes every raw block, in order, and appends the cells they hold. A
    /// continuation fragment that completes its cell adds the whole cell; the
    /// fragments stay. On error the cells are left as they were.
    pub fn raw_to_cell(&mut self, default_cell_size: u32) -> (r: Result<(), BlockError>)
        ensures
            final(self).queue == old(self).queue,
            match decode_blocks(old(self).cells_view(), old(self).blocks_view(), default_cell_size) {
                Ok(cs) => r is Ok && final(self).cells_view() == cs,
                Err(e) => r == Err::<(), BlockError>(e) && final(self).cells@ == old(self).cells@,
            },
    {
        let ghost bv = self.blocks_view();
        let ghost cv0 = self.cells_view();
        let mut frames: Vec<Frame> = Vec::new();
        let mut k: usize = 0;
        while k < self.queue.len()
            invariant
                k <= self.queue@.len(),
                bv == self.blocks_view(),
                parse_blocks(bv.take(k as int), default_cell_size) == Some(frames_view(frames@)),
            decreases self.queue@.len() - k,
        {
            assert(bv.take(k + 1).drop_last() =~= bv.take(k as int));
            assert(bv.take(k + 1).last() == self.queue@[k as int]@);
            let ok = read_block_frames(&self.queue[k], default_cell_size, &mut frames);
            if !ok {
                proof {
                    lemma_parse_blocks_prefix(bv, default_cell_size, k + 1);
                }
                return Err(BlockError::Truncated);
            }
            k += 1;
        }
        assert(bv.take(k as int) =~= bv);
        let ghost fv = frames_view(frames@);
        let orig = self.cells.len();
        let mut j: usize = 0;
        while j < frames.len()
            invariant
                j <= frames@.len(),
                fv == frames_view(frames@),
                parse_blocks(bv, default_cell_size) == Some(fv),
                bv == old(self).blocks_view(),
                cv0 == old(self).cells_view(),
                orig <= self.cells@.len(),
                self.cells@.subrange(0, orig as int) == old(self).cells@,
                self.queue == old(self).queue,
                interpret(cv0, fv.take(j as int)) == Ok::<Seq<CellView>, BlockError>(self.cells_view()),
            decreases frames@.len() - j,
        {
            assert(fv.take(j + 1).drop_last() =~= fv.take(j as int));
            assert(fv.take(j + 1).last() == frames@[j as int]@);
            let r = frame_to_cell(&self.cells, &frames[j]);
            match r {
                Err(e) => {
                    assert(interpret(cv0, fv.take(j + 1)) == Err::<Seq<CellView>, BlockError>(e));
                    proof {
                        lemma_interpret_prefix(cv0, fv, j + 1, e);
                    }
                    self.cells.truncate(orig);
                    assert(self.cells@ =~= old(self).cells@);
                    return Err(e);
                },
                Ok(None) => {},
                Ok(Some(c)) => {
                    proof {
                        lemma_cells_view_push(self.cells@, c);
                    }
                    let ghost before = self.cells@;
                    self.cells.push(c);
                    assert(self.cells@.subrange(0, orig as int) =~= before.subrange(0, orig as int));
                },
            }
            j += 1;
        }
        assert(fv.take(j as int) =~= fv);
        Ok(())
    }

    /// A queue holding one raw block and the cells decoded from it.
    pub fn from_vec(raw_content: Vec<u8>, default_cell_size: u32) -> (r: Result<Self, BlockError>)
        ensures
            match decode_blocks(seq![], seq![raw_content@], default_cell_size) {
                Ok(cs) => r is Ok && r->Ok_0.cells_view() == cs && r->Ok_0.queue@ == seq![raw_content],
                Err(e) => r == Err::<Self, BlockError>(e),
            },
    {
        let mut result = Self::new();
        result.import_from_vec(raw_content);
        assert(result.blocks_view() =~= seq![raw_content@]);
        assert(result.cells_view() =~= Seq::<CellView>::empty());
        match result.raw_to_cell(default_cell_size) {
            Ok(()) => Ok(result),
            Err(e) => Err(e),
        }
    }

    /// Drops every cell; the raw blocks stay.
    pub fn clean_cells(&mut self)
        ensures
            final(self).cells@.len() == 0,
            final(self).queue == old(self).queue,
    {
        self.cells = Vec::new();
    }

    /// Adds a cell at the end.
    pub fn import_cell(&mut self, cell: Cell)
        ensures
            final(self).cells@ == old(self).cells@.push(cell),
            final(self).cells_view() == old(self).cells_view().push(cell@),
            final(self).queue == old(self).queue,
    {
        proof {
            lemma_cells_view_push(self.cells@, cell);
        }
        self.cells.push(cell);
    }

    /// Removes every cell whose owner, or fragment identifier, is `identifier`.
    pub fn delete_cell(&mut self, identifier: [u8; 8])
        ensures
            final(self).cells_view() == without_identifier(old(self).cells_view(), identifier@),
            final(self).queue == old(self).queue,
    {
        let ghost cv0 = self.cells_view();
        let mut i: usize = 0;
        let ghost mut j: int = 0;
        while i < self.cells.len()
            invariant
                0 <= j <= cv0.len(),
                self.queue == old(self).queue,
                i == without_identifier(cv0.take(j), identifier@).len(),
                self.cells_view() == without_identifier(cv0.take(j), identifier@) + cv0.subrange(j, cv0.len() as int),
            decreases self.cells@.len() - i,
        {
            let ghost cur = self.cells_view();
            assert(cur[i as int] == cv0[j]);
            assert(cv0.take(j + 1).drop_last() =~= cv0.take(j));
            let id = cell_identifier(&self.cells[i]);
            assert(cur[i as int] == self.cells@[i as int]@);
            if same_identifier(&id, &identifier) {
                proof {
                    lemma_cells_view_remove(self.cells@, i as int);
                }
                self.cells.remove(i);
                assert(self.cells_view() =~= without_identifier(cv0.take(j + 1), identifier@) + cv0.subrange(j + 1, cv0.len() as int));
            } else {
                i += 1;
                assert(cur =~= without_identifier(cv0.take(j + 1), identifier@) + cv0.subrange(j + 1, cv0.len() as int));
            }
            proof {
                j = j + 1;
            }
        }
        assert(cv0.subrange(j, cv0.len() as int).len() == 0);
        assert(cv0.take(j) =~= cv0);
        assert(self.cells_view() =~= without_identifier(cv0, identifier@));
    }

    /// Removes every literal cell whose text is `content`.
    pub fn delete_literal_cell_based_on_content(&mut self, content: &str)
        ensures
            final(self).cells_view() == without_literal(old(self).cells_view(), content@),
            final(self).queue == old(self).queue,
    {
        let ghost cv0 = self.cells_view();
        let text = content.to_owned();
        let mut i: usize = 0;
        let ghost mut j: int = 0;
        while i < self.cells.len()
            invariant
                0 <= j <= cv0.len(),
                text@ == content@,
                self.queue == old(self).queue,
                i == without_literal(cv0.take(j), content@).len(),
                self.cells_view() == without_literal(cv0.take(j), content@) + cv0.subrange(j, cv0.len() as int),
            decreases self.cells@.len() - i,
        {
            let ghost cur = self.cells_view();
            assert(cur[i as int] == cv0[j]);
            assert(cv0.take(j + 1).drop_last() =~= cv0.take(j));
            assert(cur[i as int] == self.cells@[i as int]@);
            let hit = match &self.cells[i] {
                Cell::Literal(t, _) => *t == text,
                _ => false,
            };
            if hit {
                proof {
                    lemma_cells_view_remove(self.cells@, i as int);
                }
                self.cells.remove(i);
                assert(self.cells_view() =~= without_literal(cv0.take(j + 1), content@) + cv0.subrange(j + 1, cv0.len() as int));
            } else {
                i += 1;
                assert(cur =~= without_literal(cv0.take(j + 1), content@) + cv0.subrange(j + 1, cv0.len() as int));
            }
            proof {
                j = j + 1;
            }
        }
        assert(cv0.subrange(j, cv0.len() as int).len() == 0);
        assert(cv0.take(j) =~= cv0);
        assert(self.cells_view() =~= without_literal(cv0, content@));
    }
}

/// Whether a cell value could come from an executable cell: identifiers of
/// eight bytes.
pub open spec fn well_formed_cell(c: CellView) -> bool {
    &&& identifier_of(c).len() == 8
    &&& match c {
        CellView::Link(_, g, _) => match g {
            TargetView::SameBlock(x) => x.len() == 8,
            TargetView::AnotherField(f, x) => f.len() == 8 && x.len() == 8,
            TargetView::AnotherStruct(s, f, x) => s.len() == 8 && f.len() == 8 && x.len() == 8,
        },
        _ => true,
    }
}

/// The frame that a cell's encoding reads back as.
pub open spec fn frame_view_of(c: CellView) -> FrameView {
    FrameView { opcode: opcode_of(c), identifier: identifier_of(c), payload: payload_of(c) }
}

proof fn lemma_be32(n: nat)
    requires
        n <= u32::MAX,
    ensures
        be32_value(be32(n)) == n,
{
    let b = be32(n);
    assert(b[0] as nat == (n / 0x1000000) % 0x100);
    assert(b[1] as nat == (n / 0x10000) % 0x100);
    assert(b[2] as nat == (n / 0x100) % 0x100);
    assert(b[3] as nat == n % 0x100);
    assert(((n / 0x1000000) % 0x100) * 0x1000000 + ((n / 0x10000) % 0x100) * 0x10000 + ((n / 0x100)
        % 0x100) * 0x100 + n % 0x100 == n) by (nonlinear_arith)
        requires
            n <= u32::MAX,
    ;
}

proof fn lemma_parse_frame_of(c: CellView, d: u32, rest: Seq<u8>)
    requires
        well_formed_cell(c),
        payload_of(c).len() <= u32::MAX,
    ensures
        parse_frame(frame_of(c, d) + rest, d) == Some((frame_view_of(c), frame_of(c, d).len())),
{
    let p = payload_of(c);
    let b = frame_of(c, d) + rest;
    assert(opcode_of(c) <= 21);
    if p.len() == d {
        assert(b.subrange(1, 9) =~= identifier_of(c));
        assert(b.subrange(9, 9 + p.len() as int) =~= p);
    } else {
        lemma_be32(p.len());
        assert(b.subrange(1, 5) =~= be32(p.len()));
        assert(b.subrange(5, 13) =~= identifier_of(c));
        assert(b.subrange(13, 13 + p.len() as int) =~= p);
    }
}

proof fn lemma_parse_frame_extend(x: Seq<u8>, y: Seq<u8>, d: u32)
    requires
        parse_frame(x, d) is Some,
    ensures
        parse_frame(x + y, d) == parse_frame(x, d),
{
    let b = x + y;
    assert(b[0] == x[0]);
    if x[0] % 2 == 0 {
        assert(b.subrange(1, 5) =~= x.subrange(1, 5));
    }
    let h = header_len(x);
    let l = payload_len(x, d);
    assert(b.subrange(h as int, (h + 8) as int) =~= x.subrange(h as int, (h + 8) as int));
    assert(b.subrange((h + 8) as int, (h + 8 + l) as int) =~= x.subrange((h + 8) as int, (h + 8 + l) as int));
}

proof fn lemma_parse_frames_append(x: Seq<u8>, y: Seq<u8>, d: u32)
    requires
        parse_frames(x, d) is Some,
        parse_frames(y, d) is Some,
    ensures
        parse_frames(x + y, d) == Some(parse_frames(x, d)->0 + parse_frames(y, d)->0),
    decreases x.len(),
{
    if x.len() == 0 {
        assert(x + y =~= y);
        assert(parse_frames(x, d)->0 + parse_frames(y, d)->0 =~= parse_frames(y, d)->0);
    } else {
        let (f, n) = parse_frame(x, d)->0;
        lemma_parse_frame_extend(x, y, d);
        let xr = x.subrange(n as int, x.len() as int);
        assert((x + y).subrange(n as int, (x + y).len() as int) =~= xr + y);
        lemma_parse_frames_append(xr, y, d);
        let a = parse_frames(xr, d)->0;
        let bb = parse_frames(y, d)->0;
        assert(seq![f] + (a + bb) =~= (seq![f] + a) + bb);
    }
}

proof fn lemma_parse_single_frame(c: CellView, d: u32)
    requires
        well_formed_cell(c),
        payload_of(c).len() <= u32::MAX,
    ensures
        parse_frames(frame_of(c, d), d) == Some(seq![frame_view_of(c)]),
{
    let f = frame_of(c, d);
    lemma_parse_frame_of(c, d, seq![]);
    assert(f + Seq::<u8>::empty() =~= f);
    assert(f.len() > 0);
    assert(f.subrange(f.len() as int, f.len() as int) =~= Seq::<u8>::empty());
    assert(parse_frames(Seq::<u8>::empty(), d) == Some(Seq::<FrameView>::empty()));
    assert(seq![frame_view_of(c)] + Seq::<FrameView>::empty() =~= seq![frame_view_of(c)]);
}

proof fn lemma_pack(cells: Seq<CellView>, max: Option<u32>, d: u32)
    requires
        encodable(cells),
        forall|i: int| 0 <= i < cells.len() ==> well_formed_cell(#[trigger] cells[i]),
    ensures
        ({
            let (done, cur) = pack(cells, max, d);
            &&& parse_blocks(done, d) is Some
            &&& parse_frames(cur, d) is Some
            &&& parse_blocks(done, d)->0 + parse_frames(cur, d)->0 == cells.map_values(
                |c: CellView| frame_view_of(c),
            )
        }),
    decreases cells.len(),
{
    if cells.len() == 0 {
        assert(cells.map_values(|c: CellView| frame_view_of(c)) =~= Seq::<FrameView>::empty());
    } else {
        let init = cells.drop_last();
        let c = cells.last();
        assert(encodable(init));
        lemma_pack(init, max, d);
        let (done0, cur0) = pack(init, max, d);
        let a = parse_blocks(done0, d)->0;
        let b = parse_frames(cur0, d)->0;
        let f = frame_of(c, d);
        lemma_parse_single_frame(c, d);
        assert(cells.map_values(|c: CellView| frame_view_of(c)) =~= init.map_values(
            |c: CellView| frame_view_of(c),
        ).push(frame_view_of(c)));
        if cur0.len() > 0 && !fits(cur0.len(), f.len(), max) {
            assert(done0.push(cur0).drop_last() =~= done0);
            assert((a + b) + seq![frame_view_of(c)] =~= (a + b).push(frame_view_of(c)));
        } else {
            lemma_parse_frames_append(cur0, f, d);
            assert(a + (b + seq![frame_view_of(c)]) =~= (a + b).push(frame_view_of(c)));
        }
    }
}

proof fn lemma_interpret_whole(cells: Seq<CellView>)
    requires
        forall|i: int| 0 <= i < cells.len() ==> well_formed_cell(#[trigger] cells[i]),
        forall|i: int| 0 <= i < cells.len() ==> !is_fragment(#[trigger] cells[i]),
    ensures
        interpret(seq![], cells.map_values(|c: CellView| frame_view_of(c))) == Ok::<
            Seq<CellView>,
            BlockError,
        >(cells),
    decreases cells.len(),
{
    let fs = cells.map_values(|c: CellView| frame_view_of(c));
    if cells.len() > 0 {
        let init = cells.drop_last();
        let c = cells.last();
        assert(fs.drop_last() =~= init.map_values(|c: CellView| frame_view_of(c)));
        lemma_interpret_whole(init);
        assert(init.push(c) =~= cells);
        let fv = frame_view_of(c);
        match c {
            CellView::Literal(t, _) => {
                encode_utf8_valid_utf8(t);
                encode_utf8_decode_utf8(t);
            },
            CellView::Link(_, g, _) => match g {
                TargetView::SameBlock(x) => {
                    assert(fv.payload.subrange(0, 8) =~= x);
                },
                TargetView::AnotherField(f, x) => {
                    assert(fv.payload.subrange(0, 8) =~= f);
                    assert(fv.payload.subrange(8, 16) =~= x);
                },
                TargetView::AnotherStruct(s, f, x) => {
                    assert(fv.payload.subrange(0, 8) =~= s);
                    assert(fv.payload.subrange(8, 16) =~= f);
                    assert(fv.payload.subrange(16, 24) =~= x);
                },
            },
            _ => {},
        }
    } else {
        assert(fs =~= Seq::<FrameView>::empty());
    }
}

/// Encoding then decoding gives back the cells: for any cells without
/// fragments, any block size bound and any default cell size, decoding the
/// blocks that the cells encode to yields exactly those cells.
pub proof fn lemma_codec_round_trip(cells: Seq<CellView>, max: Option<u32>, d: u32)
    requires
        encodable(cells),
        forall|i: int| 0 <= i < cells.len() ==> well_formed_cell(#[trigger] cells[i]),
        forall|i: int| 0 <= i < cells.len() ==> !is_fragment(#[trigger] cells[i]),
    ensures
        decode_blocks(seq![], encode_blocks(cells, max, d), d) == Ok::<Seq<CellView>, BlockError>(
            cells,
        ),
{
    lemma_pack(cells, max, d);
    let (done, cur) = pack(cells, max, d);
    if cur.len() > 0 {
        assert(done.push(cur).drop_last() =~= done);
    } else {
        assert(parse_frames(cur, d)->0 =~= Seq::<FrameView>::empty());
        assert(parse_blocks(done, d)->0 + Seq::<FrameView>::empty() =~= parse_blocks(done, d)->0);
    }
    lemma_interpret_whole(cells);
}

/// The short form of a frame: its tag has the size flag set exactly when the
/// payload has the default size, and then the four length bytes are left out.
pub proof fn lemma_size_flag(c: CellView, d: u32)
    requires
        payload_of(c).len() <= u32::MAX,
    ensures
        (frame_of(c, d)[0] % 2 == 1) == (payload_of(c).len() == d),
        frame_of(c, d)[0] / 2 == opcode_of(c),
        frame_of(c, d).len() == if payload_of(c).len() == d {
            1 + identifier_of(c).len() + payload_of(c).len()
        } else {
            5 + identifier_of(c).len() + payload_of(c).len()
        },
{
    assert(opcode_of(c) <= 21);
}

/// Whether a cell's payload length fits the four-byte length field.
fn payload_fits(c: &Cell) -> (r: bool)
    ensures
        r == (payload_of(c@).len() <= u32::MAX),
{
    match c {
        Cell::Literal(s, _) => s.as_str().as_bytes().len() <= 0xffff_ffff,
        Cell::Blob(b, _) => b.len() <= 0xffff_ffff,
        Cell::Link(_, _, _) => {
            assert(payload_of(c@).len() <= 24);
            true
        },
        Cell::LiteralIncomplete(b, _) | Cell::BlobIncomplete(b, _) => b.len() <= 0xffff_fffd,
    }
}

impl BlockQueue {
    /// Whether every cell can be encoded: its payload length fits in 32 bits.
    pub fn can_encode(&self) -> (r: bool)
        ensures
            r == encodable(self.cells_view()),
    {
        let ghost cv = self.cells_view();
        let mut i: usize = 0;
        while i < self.cells.len()
            invariant
                i <= self.cells@.len(),
                cv == self.cells_view(),
                forall|k: int| 0 <= k < i ==> payload_of(#[trigger] cv[k]).len() <= u32::MAX,
            decreases self.cells@.len() - i,
        {
            assert(cv[i as int] == self.cells@[i as int]@);
            if !payload_fits(&self.cells[i]) {
                return false;
            }
            i += 1;
        }
        true
    }
}

/// A link target in a cell's text: identifiers in hexadecimal, joined by ` -> `.
pub open spec fn target_description(g: TargetView) -> Seq<char> {
    match g {
        TargetView::SameBlock(c) => hex_of(c),
        TargetView::AnotherField(f, c) => hex_of(f) + " -> "@ + hex_of(c),
        TargetView::AnotherStruct(t, f, c) => hex_of(t) + " -> "@ + hex_of(f) + " -> "@ + hex_of(c),
    }
}

/// The header of a fragment in a cell's text: identifier, `F` when final, and
/// position.
pub open spec fn fragment_description(id: Seq<u8>, n: u8, f: bool) -> Seq<char> {
    hex_of(id) + " - "@ + (if f {
        "F"@
    } else {
        seq![]
    }) + decimal_text(n as nat)
}

/// A cell as text: its kind, its identifier in parentheses, and its content.
pub open spec fn cell_description(c: CellView) -> Seq<char> {
    match c {
        CellView::Literal(t, o) => "[Literal]("@ + hex_of(o) + ") "@ + t,
        CellView::Blob(b, o) => "[Blob]("@ + hex_of(o) + ") "@ + hex_of(b),
        CellView::Link(d, g, o) => (if d is Forward {
            "[ForwardLink]("@
        } else {
            "[ReverseLink]("@
        }) + hex_of(o) + ") "@ + target_description(g),
        CellView::LiteralIncomplete(b, i, n, f) => "[LiteralIncomplete]("@ + fragment_description(i, n, f)
            + ") "@ + hex_of(b),
        CellView::BlobIncomplete(b, i, n, f) => "[BlobIncomplete]("@ + fragment_description(i, n, f) + ") "@
            + hex_of(b),
    }
}

fn push_hex(t: &mut Vec<char>, b: &[u8])
    ensures
        final(t)@ == old(t)@ + hex_of(b@),
{
    push_chars(t, chars_of(encode_hex(b).as_str()).as_slice());
}

impl Cell {
    /// The cell as text: its kind, its identifier in parentheses, and its
    /// content, with bytes and identifiers in hexadecimal.
    pub fn describe(&self) -> (r: String)
        ensures
            r@ == cell_description(self@),
    {
        let mut t: Vec<char> = Vec::new();
        match self {
            Cell::Literal(x, o) => {
                push_chars(&mut t, chars_of("[Literal](").as_slice());
                push_hex(&mut t, o.as_slice());
                push_chars(&mut t, chars_of(") ").as_slice());
                push_chars(&mut t, chars_of(x.as_str()).as_slice());
            },
            Cell::Blob(b, o) => {
                push_chars(&mut t, chars_of("[Blob](").as_slice());
                push_hex(&mut t, o.as_slice());
                push_chars(&mut t, chars_of(") ").as_slice());
                push_hex(&mut t, b.as_slice());
            },
            Cell::Link(d, g, o) => {
                match d {
                    LinkType::Forward => push_chars(&mut t, chars_of("[ForwardLink](").as_slice()),
                    LinkType::Reverse => push_chars(&mut t, chars_of("[ReverseLink](").as_slice()),
                }
                push_hex(&mut t, o.as_slice());
                push_chars(&mut t, chars_of(") ").as_slice());
                match g {
                    LinkTarget::SameBlock(c) => {
                        push_hex(&mut t, c.as_slice());
                    },
                    LinkTarget::AnotherField(f, c) => {
                        push_hex(&mut t, f.as_slice());
                        push_chars(&mut t, chars_of(" -> ").as_slice());
                        push_hex(&mut t, c.as_slice());
                    },
                    LinkTarget::AnotherStruct(x, f, c) => {
                        push_hex(&mut t, x.as_slice());
                        push_chars(&mut t, chars_of(" -> ").as_slice());
                        push_hex(&mut t, f.as_slice());
                        push_chars(&mut t, chars_of(" -> ").as_slice());
                        push_hex(&mut t, c.as_slice());
                    },
                }
            },
            Cell::LiteralIncomplete(b, h) | Cell::BlobIncomplete(b, h) => {
                match self {
                    Cell::LiteralIncomplete(_, _) => push_chars(&mut t, chars_of("[LiteralIncomplete](").as_slice()),
                    _ => push_chars(&mut t, chars_of("[BlobIncomplete](").as_slice()),
                }
                push_hex(&mut t, h.identifier.as_slice());
                push_chars(&mut t, chars_of(" - ").as_slice());
                if h.is_final {
                    push_chars(&mut t, chars_of("F").as_slice());
                }
                push_chars(&mut t, chars_of(decimal(h.num as u64).as_str()).as_slice());
                push_chars(&mut t, chars_of(") ").as_slice());
                push_hex(&mut t, b.as_slice());
            },
        }
        assert(t@ =~= cell_description(self@));
        string_of(t.as_slice())
    }
}

} // verus!
