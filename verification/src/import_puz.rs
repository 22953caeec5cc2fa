//! The binary puzzle-file decoder: a sequential, offset-driven read of a
//! fixed-layout header, two character grids, and a table of NUL-terminated
//! latin1 strings, assembled into an immutable puzzle document.
//!
//! Decoding is all-or-nothing: a stream too short for any field yields
//! `DecodeError::Truncated` and no partial document; a grid that could not
//! host a cursor (zero-sized, or all black) yields
//! `DecodeError::Degenerate`.

use vstd::prelude::*;

use crate::numbering::{
    entries_spec, grid_height, grid_wf, grid_width, lemma_scan_len, table_spec, BoardContents,
    CellNumbers, Pos2ClueIdx,
};

verus! {

/// Why a byte stream was rejected.
#[derive(Debug, Clone, Copy, PartialEq, Eq, Structural)]
pub enum DecodeError {
    /// The stream ended before a required field or terminator was read.
    Truncated,
    /// The decoded grid has a zero dimension or no open cell.
    Degenerate,
}

/// Where the one-byte width and height sit in the stream.
pub const DIMS_OFFSET: usize = 44;

/// How many bytes the fixed-layout header occupies, dimensions and counts
/// included.
pub const HEADER_LEN: usize = 52;

/// A little-endian 16-bit integer at offset `i`.
pub open spec fn le16(b: Seq<u8>, i: int) -> int {
    b[i] + 256 * b[i + 1]
}

/// Bytes decoded one byte per character.
pub open spec fn latin1(b: Seq<u8>) -> Seq<char> {
    b.map_values(|x: u8| x as char)
}

/// The fixed-layout metadata at the head of the stream.
#[derive(Debug)]
pub struct Header {
    pub cksum: u16,
    pub file_magic: String,
    pub cib_cksum: u16,
    pub masked_low_cksums: [u8; 4],
    pub masked_high_cksums: [u8; 4],
    pub ver_str: String,
    pub reserved_1c: [u8; 2],
    pub scrambled_cksum: u16,
    pub width: usize,
    pub height: usize,
    pub num_clues: usize,
    pub unk_bitmask: u16,
    pub scrambled_tag: u16,
}

/// The header fields a stream prescribes.
pub open spec fn header_matches(b: Seq<u8>, h: Header) -> bool {
    &&& h.cksum as int == le16(b, 0)
    &&& h.file_magic@ == latin1(b.subrange(2, 14))
    &&& h.cib_cksum as int == le16(b, 14)
    &&& h.masked_low_cksums@ == b.subrange(16, 20)
    &&& h.masked_high_cksums@ == b.subrange(20, 24)
    &&& h.ver_str@ == latin1(b.subrange(24, 28))
    &&& h.reserved_1c@ == b.subrange(28, 30)
    &&& h.scrambled_cksum as int == le16(b, 30)
    &&& h.width == b[44] as int
    &&& h.height == b[45] as int
    &&& h.num_clues as int == le16(b, 46)
    &&& h.unk_bitmask as int == le16(b, 48)
    &&& h.scrambled_tag as int == le16(b, 50)
}

/// Relies on `String::push`: appends exactly the given character at the
/// end of the string.
#[verifier::external_body]
fn push_char(s: &mut String, c: char)
    ensures
        final(s)@ == old(s)@.push(c),
{
    s.push(c)
}

/// Decodes a byte range one byte per character.
pub fn latin1_to_str(bytes: &Vec<u8>, from: usize, to: usize) -> (r: String)
    requires
        from <= to <= bytes.len(),
    ensures
        r@ == latin1(bytes@.subrange(from as int, to as int)),
{
    let mut r = String::new();
    let mut i = from;
    while i < to
        invariant
            from <= i <= to <= bytes.len(),
            r@ == latin1(bytes@.subrange(from as int, i as int)),
        decreases to - i,
    {
        let c = bytes[i] as char;
        push_char(&mut r, c);
        proof {
            assert(bytes@.subrange(from as int, i + 1) =~= bytes@.subrange(
                from as int,
                i as int,
            ).push(bytes@[i as int]));
            assert(r@ =~= latin1(bytes@.subrange(from as int, i + 1)));
        }
        i = i + 1;
    }
    r
}

/// Reads a little-endian 16-bit integer.
fn read_u16(bytes: &Vec<u8>, off: usize) -> (r: u16)
    requires
        off + 2 <= bytes.len(),
    ensures
        r as int == le16(bytes@, off as int),
{
    bytes[off] as u16 + 256 * (bytes[off + 1] as u16)
}

/// Reads one byte.
fn read_u8(bytes: &Vec<u8>, off: usize) -> (r: u8)
    requires
        off < bytes.len(),
    ensures
        r == bytes@[off as int],
{
    bytes[off]
}

/// Copies a byte range out of the stream.
fn read_len(bytes: &Vec<u8>, off: usize, len: usize) -> (r: Vec<u8>)
    requires
        off + len <= bytes.len(),
    ensures
        r@ == bytes@.subrange(off as int, off as int + len as int),
{
    let mut r: Vec<u8> = Vec::new();
    let mut i: usize = 0;
    while i < len
        invariant
            off + len <= bytes.len(),
            i <= len,
            r@ == bytes@.subrange(off as int, off as int + i as int),
        decreases len - i,
    {
        r.push(bytes[off + i]);
        proof {
            assert(r@ =~= bytes@.subrange(off as int, off as int + i + 1));
        }
        i = i + 1;
    }
    r
}

/// Reads a fixed-length latin1 string.
fn read_latin1_string(bytes: &Vec<u8>, off: usize, len: usize) -> (r: String)
    requires
        off + len <= bytes.len(),
    ensures
        r@ == latin1(bytes@.subrange(off as int, off as int + len as int)),
{
    latin1_to_str(bytes, off, off + len)
}

/// Decodes the fixed-layout header: checksums, format magic, version
/// string, then — at a fixed absolute offset — width, height, clue count,
/// a bitmask, and the scrambled tag. Fails iff the stream is shorter than
/// the header.
pub fn read_header(bytes: &Vec<u8>) -> (r: Result<Header, DecodeError>)
    ensures
        r is Ok <==> bytes@.len() >= HEADER_LEN,
        r is Err ==> r->Err_0 == DecodeError::Truncated,
        r matches Ok(h) ==> header_matches(bytes@, h),
{
    if bytes.len() < HEADER_LEN {
        return Err(DecodeError::Truncated);
    }

    let cksum = read_u16(bytes, 0);
    let file_magic = read_latin1_string(bytes, 2, 12);
    let cib_cksum = read_u16(bytes, 14);

    let masked_low_cksums = [bytes[16], bytes[17], bytes[18], bytes[19]];
    let masked_high_cksums = [bytes[20], bytes[21], bytes[22], bytes[23]];

    let ver_str = read_latin1_string(bytes, 24, 4);
    let reserved_1c = [bytes[28], bytes[29]];

    let scrambled_cksum = read_u16(bytes, 30);

    let width = read_u8(bytes, DIMS_OFFSET) as usize;
    let height = read_u8(bytes, DIMS_OFFSET + 1) as usize;
    let num_clues = read_u16(bytes, 46) as usize;
    let unk_bitmask = read_u16(bytes, 48);
    let scrambled_tag = read_u16(bytes, 50);

    proof {
        assert(masked_low_cksums@ =~= bytes@.subrange(16, 20));
        assert(masked_high_cksums@ =~= bytes@.subrange(20, 24));
        assert(reserved_1c@ =~= bytes@.subrange(28, 30));
    }

    Ok(
        Header {
            cksum,
            file_magic,
            cib_cksum,
            masked_low_cksums,
            masked_high_cksums,
            ver_str,
            reserved_1c,
            scrambled_cksum,
            width,
            height,
            num_clues,
            unk_bitmask,
            scrambled_tag,
        },
    )
}

/// Reads `height` rows of `width` bytes as a character grid, row-major.
/// Fails iff the stream is too short for the whole grid.
pub fn read_contents(bytes: &Vec<u8>, start: usize, height: usize, width: usize) -> (r: Result<
    BoardContents,
    DecodeError,
>)
    requires
        height <= 0xff,
        width <= 0xff,
        start <= 0x20034,
    ensures
        r is Ok <==> start + height * width <= bytes@.len(),
        r is Err ==> r->Err_0 == DecodeError::Truncated,
        r matches Ok(bc) ==> {
            &&& bc.data@.len() == height
            &&& forall|rr: int| 0 <= rr < height ==> (#[trigger] bc.data@[rr])@.len() == width
            &&& forall|rr: int, cc: int|
                0 <= rr < height && 0 <= cc < width ==> (#[trigger] bc.data@[rr]@[cc]) == (bytes@[
                    start + rr * width + cc
                ] as char)
        },
{
    proof {
        assert(height * width <= 0xff * 0xff) by (nonlinear_arith)
            requires
                height <= 0xff && width <= 0xff,
        ;
    }
    let total = height * width;
    if start > bytes.len() || total > bytes.len() - start {
        proof {
            assert(start + height * width > bytes@.len());
        }
        return Err(DecodeError::Truncated);
    }

    let mut data: Vec<Vec<char>> = Vec::new();
    let mut off = start;
    let mut r_idx: usize = 0;
    while r_idx < height
        invariant
            height <= 0xff,
            width <= 0xff,
            start <= 0x20034,
            start + height * width <= bytes.len(),
            r_idx <= height,
            off == start + r_idx * width,
            data@.len() == r_idx,
            forall|rr: int| 0 <= rr < r_idx ==> (#[trigger] data@[rr])@.len() == width,
            forall|rr: int, cc: int|
                0 <= rr < r_idx && 0 <= cc < width ==> (#[trigger] data@[rr]@[cc]) == (bytes@[start
                    + rr * width + cc] as char),
        decreases height - r_idx,
    {
        proof {
            assert((r_idx + 1) * width == r_idx * width + width) by (nonlinear_arith);
            assert(r_idx * width <= height * width && (r_idx + 1) * width <= height * width)
                by (nonlinear_arith)
                requires
                    r_idx < height && 0 <= width,
            ;
        }
        let mut row: Vec<char> = Vec::new();
        let mut c_idx: usize = 0;
        while c_idx < width
            invariant
                start + height * width <= bytes.len(),
                off == start + r_idx * width,
                off + width <= bytes.len(),
                c_idx <= width,
                row@.len() == c_idx,
                forall|cc: int|
                    0 <= cc < c_idx ==> (#[trigger] row@[cc]) == (bytes@[off + cc] as char),
            decreases width - c_idx,
        {
            row.push(bytes[off + c_idx] as char);
            c_idx = c_idx + 1;
        }
        data.push(row);
        off = off + width;
        r_idx = r_idx + 1;
    }
    Ok(BoardContents { data })
}

/// The first NUL at or after `from`; the stream length if none remains.
pub open spec fn find_nul(b: Seq<u8>, from: int) -> int
    decreases b.len() - from,
{
    if from < 0 || from >= b.len() {
        b.len() as int
    } else if b[from] == 0 {
        from
    } else {
        find_nul(b, from + 1)
    }
}

/// Where the `k`-th NUL-terminated string begins, the section starting at
/// `start`.
pub open spec fn seg_start(b: Seq<u8>, start: int, k: int) -> int
    decreases k,
{
    if k <= 0 {
        start
    } else {
        find_nul(b, seg_start(b, start, k - 1)) + 1
    }
}

/// Whether the `k`-th string has its terminator before the stream ends.
pub open spec fn seg_ok(b: Seq<u8>, start: int, k: int) -> bool {
    find_nul(b, seg_start(b, start, k)) < b.len()
}

/// The `k`-th string, decoded one byte per character, terminator excluded.
pub open spec fn seg_str(b: Seq<u8>, start: int, k: int) -> Seq<char> {
    latin1(b.subrange(seg_start(b, start, k), find_nul(b, seg_start(b, start, k))))
}

/// The string section of a puzzle: three leading metadata strings, the
/// clue texts in file order, and trailing notes.
#[derive(Debug)]
pub struct PuzStrings {
    pub title: String,
    pub author: String,
    pub copyright: String,
    pub clues: Vec<String>,
    pub notes: String,
}

/// Reads exactly `num_clues + 4` NUL-terminated latin1 strings, in order:
/// title, author, copyright, the `num_clues` clue texts, then notes. Fails
/// iff a terminator is missing before the stream ends.
pub fn read_strings(bytes: &Vec<u8>, start: usize, num_clues: usize) -> (r: Result<
    PuzStrings,
    DecodeError,
>)
    requires
        num_clues <= 0xffff,
        start <= bytes.len(),
    ensures
        r is Ok <==> (forall|k: int|
            0 <= k < num_clues + 4 ==> #[trigger] seg_ok(bytes@, start as int, k)),
        r is Err ==> r->Err_0 == DecodeError::Truncated,
        r matches Ok(ps) ==> {
            &&& ps.title@ == seg_str(bytes@, start as int, 0)
            &&& ps.author@ == seg_str(bytes@, start as int, 1)
            &&& ps.copyright@ == seg_str(bytes@, start as int, 2)
            &&& ps.clues@.len() == num_clues
            &&& forall|i: int|
                0 <= i < num_clues ==> (#[trigger] ps.clues@[i])@ == seg_str(
                    bytes@,
                    start as int,
                    3 + i,
                )
            &&& ps.notes@ == seg_str(bytes@, start as int, num_clues + 3)
        },
{
    let n_strings = num_clues + 4;
    let mut parts: Vec<String> = Vec::new();
    let mut pos = start;
    let mut k: usize = 0;
    while k < n_strings
        invariant
            n_strings == num_clues + 4,
            start <= bytes.len(),
            k <= n_strings,
            pos == seg_start(bytes@, start as int, k as int),
            pos <= bytes.len(),
            parts@.len() == k,
            forall|j: int| 0 <= j < k ==> #[trigger] seg_ok(bytes@, start as int, j),
            forall|j: int|
                0 <= j < k ==> (#[trigger] parts@[j])@ == seg_str(bytes@, start as int, j),
        decreases n_strings - k,
    {
        let mut e = pos;
        while e < bytes.len() && bytes[e] != 0
            invariant
                pos <= e <= bytes.len(),
                find_nul(bytes@, pos as int) == find_nul(bytes@, e as int),
            decreases bytes.len() - e,
        {
            e = e + 1;
        }
        if e == bytes.len() {
            proof {
                assert(find_nul(bytes@, e as int) == bytes@.len());
                assert(!seg_ok(bytes@, start as int, k as int));
            }
            return Err(DecodeError::Truncated);
        }
        proof {
            assert(find_nul(bytes@, e as int) == e);
            assert(seg_ok(bytes@, start as int, k as int));
        }
        let s = latin1_to_str(bytes, pos, e);
        proof {
            assert(s@ == seg_str(bytes@, start as int, k as int));
        }
        parts.push(s);
        pos = e + 1;
        k = k + 1;
        proof {
            assert(seg_start(bytes@, start as int, k as int) == find_nul(
                bytes@,
                seg_start(bytes@, start as int, k as int - 1),
            ) + 1);
        }
    }

    let title = parts[0].clone();
    let author = parts[1].clone();
    let copyright = parts[2].clone();
    let notes = parts[num_clues + 3].clone();
    let mut clues: Vec<String> = Vec::new();
    let mut i: usize = 0;
    while i < num_clues
        invariant
            num_clues <= 0xffff,
            num_clues + 4 == parts@.len(),
            forall|j: int|
                0 <= j < parts@.len() ==> (#[trigger] parts@[j])@ == seg_str(
                    bytes@,
                    start as int,
                    j,
                ),
            i <= num_clues,
            clues@.len() == i,
            forall|j: int|
                0 <= j < i ==> (#[trigger] clues@[j])@ == seg_str(bytes@, start as int, 3 + j),
        decreases num_clues - i,
    {
        clues.push(parts[3 + i].clone());
        i = i + 1;
    }

    Ok(PuzStrings { title, author, copyright, clues, notes })
}


/// The stream is long enough for the header.
pub open spec fn hdr_fits(b: Seq<u8>) -> bool {
    b.len() >= HEADER_LEN
}

/// The grid width the header declares.
pub open spec fn width_of(b: Seq<u8>) -> int {
    b[44] as int
}

/// The grid height the header declares.
pub open spec fn height_of(b: Seq<u8>) -> int {
    b[45] as int
}

/// The clue count the header declares.
pub open spec fn nclues_of(b: Seq<u8>) -> int {
    le16(b, 46)
}

/// Both declared dimensions are positive.
pub open spec fn dims_pos(b: Seq<u8>) -> bool {
    width_of(b) > 0 && height_of(b) > 0
}

/// The stream is long enough for both grids.
pub open spec fn grids_fit(b: Seq<u8>) -> bool {
    HEADER_LEN + 2 * height_of(b) * width_of(b) <= b.len()
}

/// The solution-grid character at `(r, c)`.
pub open spec fn sol_char_at(b: Seq<u8>, r: int, c: int) -> char {
    b[HEADER_LEN + r * width_of(b) + c] as char
}

/// The solution grid the stream encodes.
pub open spec fn sol_grid_of(b: Seq<u8>) -> Seq<Seq<char>> {
    Seq::new(height_of(b) as nat, |r: int| Seq::new(width_of(b) as nat, |c: int| sol_char_at(b, r, c)))
}

/// The player-state grid character at `(r, c)`.
pub open spec fn player_char_at(b: Seq<u8>, r: int, c: int) -> char {
    b[HEADER_LEN + height_of(b) * width_of(b) + r * width_of(b) + c] as char
}

/// The encoded solution grid has at least one open (non-black) cell.
pub open spec fn has_open_cell(b: Seq<u8>) -> bool {
    exists|r: int, c: int|
        0 <= r < height_of(b) && 0 <= c < width_of(b) && sol_char_at(b, r, c)
            != crate::numbering::black_char()
}

/// Where the string section begins.
pub open spec fn strings_start(b: Seq<u8>) -> int {
    HEADER_LEN + 2 * height_of(b) * width_of(b)
}

/// Every one of the `clue_count + 4` strings is terminated in the stream.
pub open spec fn strings_fit(b: Seq<u8>) -> bool {
    forall|k: int| 0 <= k < nclues_of(b) + 4 ==> #[trigger] seg_ok(b, strings_start(b), k)
}

/// A stream decodes to a document iff all of this holds.
pub open spec fn decode_ok(b: Seq<u8>) -> bool {
    &&& hdr_fits(b)
    &&& dims_pos(b)
    &&& grids_fit(b)
    &&& has_open_cell(b)
    &&& strings_fit(b)
}

/// Which error a rejected stream earns: the first check that fails, in
/// decoding order.
pub open spec fn decode_err(b: Seq<u8>) -> DecodeError {
    if !hdr_fits(b) {
        DecodeError::Truncated
    } else if !dims_pos(b) {
        DecodeError::Degenerate
    } else if !grids_fit(b) {
        DecodeError::Truncated
    } else if !has_open_cell(b) {
        DecodeError::Degenerate
    } else {
        DecodeError::Truncated
    }
}

/// The immutable puzzle document a well-formed stream decodes to.
#[derive(Debug)]
pub struct ImportedPuz {
    pub header: Header,
    pub solution: BoardContents,
    pub player_state: BoardContents,
    pub strings: PuzStrings,
    pub pos_2_clue_idx: Pos2ClueIdx,
}

impl ImportedPuz {
    /// The header dimensions agree with the solution grid.
    pub open spec fn wf(self) -> bool {
        &&& self.solution.wf()
        &&& self.header.width == grid_width(self.solution.grid())
        &&& self.header.height == grid_height(self.solution.grid())
        &&& self.strings.clues@.len() == self.header.num_clues
    }

    pub fn width(&self) -> (r: usize)
        ensures
            r == self.header.width,
    {
        self.header.width
    }

    pub fn height(&self) -> (r: usize)
        ensures
            r == self.header.height,
    {
        self.header.height
    }

    /// The answer-key character at `(r_idx, c_idx)`.
    pub fn solution_at(&self, r_idx: usize, c_idx: usize) -> (r: char)
        requires
            self.wf(),
            r_idx < self.header.height,
            c_idx < self.header.width,
        ensures
            r == self.solution.grid()[r_idx as int][c_idx as int],
    {
        proof {
            assert(self.solution.grid()[r_idx as int] == self.solution.data@[r_idx as int]@);
        }
        self.solution.data[r_idx][c_idx]
    }

    pub fn clues(&self) -> (r: &Vec<String>)
        ensures
            r@ == self.strings.clues@,
    {
        &self.strings.clues
    }
}

/// The document a stream prescribes: header fields, both grids, the
/// string section, and the clue-index table derived from the solution
/// grid's numbering.
pub open spec fn decoded(b: Seq<u8>, doc: ImportedPuz) -> bool {
    &&& doc.wf()
    &&& header_matches(b, doc.header)
    &&& doc.solution.grid() == sol_grid_of(b)
    &&& doc.player_state.data@.len() == height_of(b)
    &&& forall|r: int|
        0 <= r < height_of(b) ==> (#[trigger] doc.player_state.data@[r])@.len() == width_of(b)
    &&& forall|r: int, c: int|
        0 <= r < height_of(b) && 0 <= c < width_of(b) ==> (#[trigger] doc.player_state.data@[r]@[
            c
        ]) == player_char_at(b, r, c)
    &&& doc.strings.title@ == seg_str(b, strings_start(b), 0)
    &&& doc.strings.author@ == seg_str(b, strings_start(b), 1)
    &&& doc.strings.copyright@ == seg_str(b, strings_start(b), 2)
    &&& doc.strings.clues@.len() == nclues_of(b)
    &&& forall|i: int|
        0 <= i < nclues_of(b) ==> (#[trigger] doc.strings.clues@[i])@ == seg_str(
            b,
            strings_start(b),
            3 + i,
        )
    &&& doc.strings.notes@ == seg_str(b, strings_start(b), nclues_of(b) + 3)
    &&& doc.pos_2_clue_idx.0@ == table_spec(entries_spec(sol_grid_of(b)))
}

/// Decodes one whole puzzle stream: header, solution grid, player-state
/// grid, string section; then derives the cell numbering and the
/// clue-index table from the solution grid. All-or-nothing: any failure
/// returns an error and no document.
pub fn import_puzzle(bytes: &Vec<u8>) -> (r: Result<ImportedPuz, DecodeError>)
    ensures
        r is Ok <==> decode_ok(bytes@),
        r is Err ==> r->Err_0 == decode_err(bytes@),
        r matches Ok(doc) ==> decoded(bytes@, doc),
{
    let header = match read_header(bytes) {
        Ok(h) => h,
        Err(e) => {
            return Err(e);
        },
    };
    let (width, height, n_clues) = (header.width, header.height, header.num_clues);
    if width == 0 || height == 0 {
        return Err(DecodeError::Degenerate);
    }

    let solution = match read_contents(bytes, HEADER_LEN, height, width) {
        Ok(s) => s,
        Err(e) => {
            proof {
                assert(!grids_fit(bytes@)) by (nonlinear_arith)
                    requires
                        HEADER_LEN + height * width > bytes@.len() && height == height_of(bytes@)
                            && width == width_of(bytes@) && height >= 0 && width >= 0
                            && !grids_fit(bytes@) == !grids_fit(bytes@),
                ;
            }
            return Err(e);
        },
    };
    proof {
        assert(height * width <= 0xff * 0xff) by (nonlinear_arith)
            requires
                height <= 0xff && width <= 0xff,
        ;
    }
    let grid_bytes = height * width;
    let player_state = match read_contents(bytes, HEADER_LEN + grid_bytes, height, width) {
        Ok(s) => s,
        Err(e) => {
            proof {
                assert(HEADER_LEN + grid_bytes + height * width == HEADER_LEN + 2 * height
                    * width) by (nonlinear_arith)
                    requires
                        grid_bytes == height * width,
                ;
            }
            return Err(e);
        },
    };
    proof {
        assert(HEADER_LEN + grid_bytes + height * width == HEADER_LEN + 2 * height * width)
            by (nonlinear_arith)
            requires
                grid_bytes == height * width,
        ;
        assert(solution.grid() =~~= sol_grid_of(bytes@));
        assert(grid_wf(solution.grid()));
    }

    let mut open_found = false;
    let mut r_idx: usize = 0;
    while r_idx < height && !open_found
        invariant
            solution.wf(),
            height == grid_height(solution.grid()),
            width == grid_width(solution.grid()),
            r_idx <= height,
            open_found ==> exists|r: int, c: int|
                0 <= r < height && 0 <= c < width && #[trigger] solution.grid()[r][c]
                    != crate::numbering::black_char(),
            !open_found ==> forall|r: int, c: int|
                0 <= r < r_idx && 0 <= c < width ==> #[trigger] solution.grid()[r][c]
                    == crate::numbering::black_char(),
        decreases height - r_idx,
    {
        let mut c_idx: usize = 0;
        while c_idx < width && !open_found
            invariant
                solution.wf(),
                height == grid_height(solution.grid()),
                width == grid_width(solution.grid()),
                r_idx < height,
                c_idx <= width,
                open_found ==> exists|r: int, c: int|
                    0 <= r < height && 0 <= c < width && #[trigger] solution.grid()[r][c]
                        != crate::numbering::black_char(),
                !open_found ==> forall|r: int, c: int|
                    0 <= r < r_idx && 0 <= c < width ==> #[trigger] solution.grid()[r][c]
                        == crate::numbering::black_char(),
                !open_found ==> forall|c: int|
                    0 <= c < c_idx ==> #[trigger] solution.grid()[r_idx as int][c]
                        == crate::numbering::black_char(),
            decreases width - c_idx,
        {
            proof {
                assert(solution.grid()[r_idx as int] == solution.data@[r_idx as int]@);
            }
            if solution.data[r_idx][c_idx] != '.' {
                open_found = true;
                proof {
                    assert(solution.grid()[r_idx as int][c_idx as int]
                        != crate::numbering::black_char());
                }
            }
            c_idx = c_idx + 1;
        }
        r_idx = r_idx + 1;
    }
    if !open_found {
        proof {
            assert forall|r: int, c: int|
                0 <= r < height_of(bytes@) && 0 <= c < width_of(bytes@) implies sol_char_at(
                bytes@,
                r,
                c,
            ) == crate::numbering::black_char() by {
                assert(solution.grid()[r][c] == crate::numbering::black_char());
            }
        }
        return Err(DecodeError::Degenerate);
    }

    proof {
        let (r0, c0) = choose|r: int, c: int|
            0 <= r < height && 0 <= c < width && #[trigger] solution.grid()[r][c]
                != crate::numbering::black_char();
        assert(sol_char_at(bytes@, r0, c0) != crate::numbering::black_char());
        assert(has_open_cell(bytes@));
        lemma_scan_len(solution.grid(), 0, 0);
        assert(grid_height(solution.grid()) * grid_width(solution.grid()) <= 0xff * 0xff)
            by (nonlinear_arith)
            requires
                0 <= grid_height(solution.grid()) <= 0xff && 0 <= grid_width(solution.grid())
                    <= 0xff,
        ;
    }
    let pos_2_num: CellNumbers = solution.calc_cell_numbers();
    let pos_2_clue_idx = pos_2_num.calc_num_2_clue_idx();

    proof {
        assert(2 * grid_bytes == 2 * height_of(bytes@) * width_of(bytes@)) by (nonlinear_arith)
            requires
                grid_bytes == height * width && height == height_of(bytes@) && width == width_of(
                    bytes@,
                ),
        ;
    }
    let strings = match read_strings(bytes, HEADER_LEN + 2 * grid_bytes, n_clues) {
        Ok(s) => s,
        Err(e) => {
            proof {
                let ss = (HEADER_LEN + 2 * grid_bytes) as int;
                assert(ss == strings_start(bytes@));
                let k0 = choose|k: int| 0 <= k < n_clues + 4 && !seg_ok(bytes@, ss, k);
                assert(!seg_ok(bytes@, strings_start(bytes@), k0));
                assert(!strings_fit(bytes@));
            }
            return Err(e);
        },
    };

    Ok(ImportedPuz { header, solution, player_state, strings, pos_2_clue_idx })
}


/// Round trip: a well-formed stream whose declared clue count matches the
/// clue slots its solution grid induces decodes to exactly that many clue
/// strings and a clue-index table of the same size.
pub proof fn lemma_round_trip(b: Seq<u8>, doc: ImportedPuz)
    requires
        decoded(b, doc),
        crate::numbering::clue_seq(entries_spec(sol_grid_of(b))).len() == nclues_of(b),
    ensures
        doc.strings.clues@.len() == nclues_of(b),
        doc.pos_2_clue_idx.0@.len() == nclues_of(b),
{
}

} // verus!
