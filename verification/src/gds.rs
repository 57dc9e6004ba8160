//! GDSII (Calma GDS Stream) layout reader and writer.
//!
//! A GDSII stream is a flat sequence of records. Each record is a big-endian
//! `u16` total length (the header counted), a record-type byte, a data-type byte
//! and `length - 4` payload bytes. The document handled here is
//!
//! ```text
//! HEADER BGNLIB LIBNAME UNITS
//!   ( BGNSTR STRNAME ( BOUNDARY | PATH | SREF ... ENDEL )* ENDSTR )*
//! ENDLIB
//! ```
//!
//! Integers are big-endian two's complement (INT2 = `i16`, INT4 = `i32`);
//! ASCII strings are NUL-padded to an even length. `UNITS` holds two 8-byte
//! GDSII reals. A library keeps them as the encodings that reading each real
//! as a double and writing it back gives ([`normalize_real8`], computed on
//! integers), or the encodings of `1e-3` and `1e-9` for a new library, and
//! writes those bytes.
//!
//! The reader is tolerant: it counts `PATH` and `SREF` elements but keeps
//! geometry for `BOUNDARY` only, and skips records it does not know.
//! [`spec_write`] is the meaning of [`Gds::write`] and [`spec_read`] that of
//! [`Gds::read`], both stated record by record.
use vstd::prelude::*;

use crate::text::{digits_u64, nat_digits, string_of};

verus! {

// Record-type codes (the third header byte).
pub const RT_HEADER: u8 = 0x00u8;
pub const RT_BGNLIB: u8 = 0x01u8;
pub const RT_LIBNAME: u8 = 0x02u8;
pub const RT_UNITS: u8 = 0x03u8;
pub const RT_ENDLIB: u8 = 0x04u8;
pub const RT_BGNSTR: u8 = 0x05u8;
pub const RT_STRNAME: u8 = 0x06u8;
pub const RT_ENDSTR: u8 = 0x07u8;
pub const RT_BOUNDARY: u8 = 0x08u8;
pub const RT_PATH: u8 = 0x09u8;
pub const RT_SREF: u8 = 0x0au8;
pub const RT_LAYER: u8 = 0x0du8;
pub const RT_DATATYPE: u8 = 0x0eu8;
pub const RT_XY: u8 = 0x10u8;
pub const RT_ENDEL: u8 = 0x11u8;

// Data-type codes (the fourth header byte).
pub const DT_NODATA: u8 = 0x00u8;
pub const DT_INT2: u8 = 0x02u8;
pub const DT_INT4: u8 = 0x03u8;
pub const DT_REAL8: u8 = 0x05u8;
pub const DT_ASCII: u8 = 0x06u8;

// ===========================================================================
// Errors
// ===========================================================================

/// Errors produced while parsing a GDSII stream.
#[derive(Debug, Clone, PartialEq, Eq, Structural)]
pub enum GdsError {
    /// The stream ended in the middle of a record header.
    UnexpectedEof,
    /// A record declared a length smaller than its 4-byte header, or one that
    /// overruns the remaining input (e.g. a truncated stream).
    BadRecordLength {
        /// The byte offset where the bad record begins.
        offset: usize,
        /// The (invalid) length the record declared.
        len: usize,
    },
    /// A record carried a payload whose size is invalid for its data type
    /// (e.g. an INT2 record whose payload is not a multiple of 2 bytes).
    BadPayload {
        /// The record type byte.
        rtype: u8,
        /// The payload length that was rejected.
        len: usize,
    },
    /// The stream did not begin with a `HEADER` record.
    MissingHeader,
}

/// The lower-case hexadecimal digit of `d` (`0 <= d < 16`).
pub open spec fn hex_digit(d: int) -> char {
    if d < 10 {
        ('0' as u32 + d) as char
    } else {
        ('a' as u32 + (d - 10)) as char
    }
}

/// The human-readable text of a GDSII error.
pub open spec fn gds_error_text(e: GdsError) -> Seq<char> {
    match e {
        GdsError::UnexpectedEof => "unexpected end of GDSII stream"@,
        GdsError::BadRecordLength { offset, len } => "bad record length "@ + nat_digits(
            len as nat,
        ) + " at offset "@ + nat_digits(offset as nat),
        GdsError::BadPayload { rtype, len } => "bad payload length "@ + nat_digits(len as nat)
            + " for record type 0x"@ + seq![hex_digit((rtype / 16) as int), hex_digit((rtype % 16) as int)],
        GdsError::MissingHeader => "stream does not start with a HEADER record"@,
    }
}

fn hex_char(d: u8) -> (c: char)
    requires
        d < 16,
    ensures
        c == hex_digit(d as int),
{
    if d < 10 {
        (48u8 + d) as char
    } else {
        (87u8 + d) as char
    }
}

impl GdsError {
    /// The human-readable text of this error.
    pub fn message(&self) -> (s: String)
        ensures
            s@ == gds_error_text(*self),
    {
        match self {
            GdsError::UnexpectedEof => String::from_str("unexpected end of GDSII stream"),
            GdsError::BadRecordLength { offset, len } => {
                let mut s = String::from_str("bad record length ");
                let d1 = digits_u64(*len as u64);
                s.append(d1.as_str());
                s.append(" at offset ");
                let d2 = digits_u64(*offset as u64);
                s.append(d2.as_str());
                s
            },
            GdsError::BadPayload { rtype, len } => {
                let mut s = String::from_str("bad payload length ");
                let d1 = digits_u64(*len as u64);
                s.append(d1.as_str());
                s.append(" for record type 0x");
                let hex = vec![hex_char(*rtype / 16), hex_char(*rtype % 16)];
                let h = string_of(&hex);
                s.append(h.as_str());
                s
            },
            GdsError::MissingHeader => String::from_str("stream does not start with a HEADER record"),
        }
    }
}

// ===========================================================================
// Data model
// ===========================================================================

/// One element of a cell. Only `Boundary` carries geometry; `Path` and `Sref`
/// are kept so that element counts survive a read/write round trip.
#[derive(Debug, Clone)]
enum Element {
    /// A filled polygon: `xy` is the flat list `[x0, y0, x1, y1, ...]` of
    /// database-unit coordinates.
    Boundary { layer: i16, datatype: i16, xy: Vec<i32> },
    /// A path element (geometry not kept).
    Path,
    /// A structure reference (target not kept).
    Sref,
}

/// An element as plain values.
pub enum ElementModel {
    Boundary { layer: i16, datatype: i16, xy: Seq<i32> },
    Path,
    Sref,
}

impl View for Element {
    type V = ElementModel;

    closed spec fn view(&self) -> ElementModel {
        match self {
            Element::Boundary { layer, datatype, xy } => ElementModel::Boundary {
                layer: *layer,
                datatype: *datatype,
                xy: xy@,
            },
            Element::Path => ElementModel::Path,
            Element::Sref => ElementModel::Sref,
        }
    }
}

/// A structure (cell): a named list of elements.
#[derive(Debug, Clone)]
struct Cell {
    name: String,
    elements: Vec<Element>,
}

/// A cell as plain values.
pub struct CellModel {
    pub name: Seq<char>,
    pub elements: Seq<ElementModel>,
}

impl View for Cell {
    type V = CellModel;

    closed spec fn view(&self) -> CellModel {
        CellModel { name: self.name@, elements: self.elements@.map_values(|e: Element| e@) }
    }
}

/// A library as plain values: its name, the 16 encoded bytes of `UNITS`, and
/// its cells in insertion order.
pub struct GdsModel {
    pub lib_name: Seq<char>,
    pub units: Seq<u8>,
    pub cells: Seq<CellModel>,
}

/// A parsed or constructed GDSII library.
#[derive(Debug, Clone)]
pub struct Gds {
    lib_name: String,
    /// The `UNITS` payload: the size of a database unit in user units, then in
    /// meters, each as an 8-byte GDSII real.
    units: Vec<u8>,
    /// Cells in insertion order; no two share a name.
    cells: Vec<Cell>,
}

impl View for Gds {
    type V = GdsModel;

    closed spec fn view(&self) -> GdsModel {
        GdsModel {
            lib_name: self.lib_name@,
            units: self.units@,
            cells: self.cells@.map_values(|c: Cell| c@),
        }
    }
}

/// The encoded `UNITS` of a new library: a database unit of `1e-3` user units
/// (one micron) and `1e-9` meters (one nanometre).
pub open spec fn default_units() -> Seq<u8> {
    seq![
        0x3eu8, 0x41u8, 0x89u8, 0x37u8, 0x4bu8, 0xc6u8, 0xa7u8, 0xf0u8,
        0x39u8, 0x44u8, 0xb8u8, 0x2fu8, 0xa0u8, 0x9bu8, 0x5au8, 0x54u8,
    ]
}

fn default_units_vec() -> (v: Vec<u8>)
    ensures
        v@ == default_units(),
{
    let v = vec![
        0x3eu8, 0x41u8, 0x89u8, 0x37u8, 0x4bu8, 0xc6u8, 0xa7u8, 0xf0u8,
        0x39u8, 0x44u8, 0xb8u8, 0x2fu8, 0xa0u8, 0x9bu8, 0x5au8, 0x54u8,
    ];
    proof {
        assert(v@ =~= default_units());
    }
    v
}

/// No two cells share a name.
pub open spec fn names_distinct(cells: Seq<CellModel>) -> bool {
    forall|i: int, j: int| 0 <= i < j < cells.len() ==> cells[i].name != cells[j].name
}

/// Some cell has this name.
pub open spec fn has_cell(cells: Seq<CellModel>, name: Seq<char>) -> bool {
    exists|i: int| 0 <= i < cells.len() && cells[i].name == name
}

/// The position of the cell with this name (meaningful when [`has_cell`]).
pub open spec fn cell_pos(cells: Seq<CellModel>, name: Seq<char>) -> int {
    choose|i: int| 0 <= i < cells.len() && cells[i].name == name
}

/// A library is well formed when `UNITS` holds two reals and cell names are
/// distinct.
pub open spec fn model_wf(m: GdsModel) -> bool {
    &&& m.units.len() == 16
    &&& names_distinct(m.cells)
}

/// The cells after adding a cell named `name` when none has that name yet.
pub open spec fn with_cell(cells: Seq<CellModel>, name: Seq<char>) -> Seq<CellModel> {
    if has_cell(cells, name) {
        cells
    } else {
        cells.push(CellModel { name, elements: seq![] })
    }
}

/// The cells after appending `e` to the elements of cell `i`.
pub open spec fn with_element(cells: Seq<CellModel>, i: int, e: ElementModel) -> Seq<CellModel> {
    cells.update(i, CellModel { name: cells[i].name, elements: cells[i].elements.push(e) })
}

/// The total number of elements over a list of cells.
pub open spec fn elements_total(cells: Seq<CellModel>) -> nat
    decreases cells.len(),
{
    if cells.len() == 0 {
        0
    } else {
        elements_total(cells.drop_last()) + cells.last().elements.len()
    }
}

/// The closed outline of an axis-aligned rectangle: lower-left, lower-right,
/// upper-right, upper-left and lower-left again.
pub open spec fn rect_outline(x: i32, y: i32, w: i32, h: i32) -> Seq<i32> {
    seq![
        x,
        y,
        (x + w) as i32,
        y,
        (x + w) as i32,
        (y + h) as i32,
        x,
        (y + h) as i32,
        x,
        y,
    ]
}

/// A new cell is well formed after [`with_cell`].
pub proof fn lemma_with_cell(cells: Seq<CellModel>, name: Seq<char>)
    requires
        names_distinct(cells),
    ensures
        names_distinct(with_cell(cells, name)),
        has_cell(with_cell(cells, name), name),
        0 <= cell_pos(with_cell(cells, name), name) < with_cell(cells, name).len(),
        with_cell(cells, name)[cell_pos(with_cell(cells, name), name)].name == name,
        !has_cell(cells, name) ==> cell_pos(with_cell(cells, name), name) == cells.len(),
        forall|i: int| 0 <= i < cells.len() ==> #[trigger] with_cell(cells, name)[i] == cells[i],
{
    let c = with_cell(cells, name);
    if !has_cell(cells, name) {
        assert(c[cells.len() as int].name == name);
    }
    let p = cell_pos(c, name);
    if !has_cell(cells, name) {
        assert(p == cells.len()) by {
            if p != cells.len() {
                assert(c[p] == cells[p]);
            }
        }
    }
}

/// Appending an element keeps names, and adds one to the total.
pub proof fn lemma_with_element(cells: Seq<CellModel>, i: int, e: ElementModel)
    requires
        0 <= i < cells.len(),
    ensures
        with_element(cells, i, e).len() == cells.len(),
        forall|j: int| 0 <= j < cells.len() ==> #[trigger] with_element(cells, i, e)[j].name == cells[j].name,
        names_distinct(cells) ==> names_distinct(with_element(cells, i, e)),
        elements_total(with_element(cells, i, e)) == elements_total(cells) + 1,
    decreases cells.len(),
{
    let c = with_element(cells, i, e);
    if i == cells.len() - 1 {
        assert(c.drop_last() =~= cells.drop_last());
    } else {
        lemma_with_element(cells.drop_last(), i, e);
        assert(c.drop_last() =~= with_element(cells.drop_last(), i, e));
    }
}

/// A prefix of the cells has no more elements than all of them.
pub proof fn lemma_elements_total_prefix(cells: Seq<CellModel>, k: int)
    requires
        0 <= k <= cells.len(),
    ensures
        elements_total(cells.take(k)) <= elements_total(cells),
    decreases cells.len() - k,
{
    if k < cells.len() {
        lemma_elements_total_prefix(cells, k + 1);
        assert(cells.take(k + 1).drop_last() =~= cells.take(k));
    } else {
        assert(cells.take(k) =~= cells);
    }
}

impl Gds {
    /// The library is well formed (see [`model_wf`]).
    pub open spec fn wf(&self) -> bool {
        model_wf(self@)
    }

    /// A new, empty library with the given name, a 1-micron user unit and a
    /// 1-nanometre database unit.
    pub fn new(lib_name: &str) -> (g: Gds)
        ensures
            g.wf(),
            g@ == (GdsModel { lib_name: lib_name@, units: default_units(), cells: seq![] }),
            text_writable(lib_name@) ==> writable(g@),
    {
        let g = Gds { lib_name: String::from_str(lib_name), units: default_units_vec(), cells: Vec::new() };
        proof {
            assert(g@.cells =~= Seq::<CellModel>::empty());
        }
        g
    }

    /// The library name.
    pub fn lib_name(&self) -> (s: &str)
        ensures
            s@ == self@.lib_name,
    {
        self.lib_name.as_str()
    }

    /// Number of structures/cells.
    pub fn cell_count(&self) -> (n: usize)
        ensures
            n == self@.cells.len(),
    {
        self.cells.len()
    }

    /// Total number of elements (boundaries, paths, references) over all cells.
    pub fn element_count(&self) -> (n: usize)
        requires
            elements_total(self@.cells) <= usize::MAX,
        ensures
            n == elements_total(self@.cells),
    {
        let mut n: usize = 0;
        let mut i: usize = 0;
        while i < self.cells.len()
            invariant
                i <= self.cells@.len(),
                elements_total(self@.cells) <= usize::MAX,
                n == elements_total(self@.cells.take(i as int)),
            decreases self.cells@.len() - i,
        {
            proof {
                assert(self@.cells.take(i + 1).drop_last() =~= self@.cells.take(i as int));
                lemma_elements_total_prefix(self@.cells, i + 1);
            }
            n = n + self.cells[i].elements.len();
            i = i + 1;
        }
        proof {
            assert(self@.cells.take(i as int) =~= self@.cells);
        }
        n
    }

    /// The position of the cell named `name`, if any.
    fn find_cell(&self, name: &String) -> (r: Option<usize>)
        requires
            self.wf(),
        ensures
            r.is_some() <==> has_cell(self@.cells, name@),
            r.is_some() ==> r.unwrap() == cell_pos(self@.cells, name@) && r.unwrap() < self@.cells.len(),
    {
        let mut i: usize = 0;
        while i < self.cells.len()
            invariant
                self.wf(),
                i <= self.cells@.len(),
                forall|j: int| 0 <= j < i ==> self@.cells[j].name != name@,
            decreases self.cells@.len() - i,
        {
            if self.cells[i].name == *name {
                proof {
                    assert(self@.cells[i as int].name == name@);
                    let p = cell_pos(self@.cells, name@);
                    assert(p == i) by {
                        if p != i {
                            assert(names_distinct(self@.cells));
                        }
                    }
                }
                return Some(i);
            }
            i = i + 1;
        }
        None
    }

    fn add_cell_string(&mut self, name: String) -> (created: bool)
        requires
            old(self).wf(),
        ensures
            final(self).wf(),
            created == !has_cell(old(self)@.cells, name@),
            final(self)@ == (GdsModel { cells: with_cell(old(self)@.cells, name@), ..old(self)@ }),
    {
        proof {
            lemma_with_cell(self@.cells, name@);
        }
        if self.find_cell(&name).is_some() {
            return false;
        }
        let ghost before = self@;
        let c = Cell { name, elements: Vec::new() };
        proof {
            assert(c@.elements =~= Seq::<ElementModel>::empty());
        }
        self.cells.push(c);
        proof {
            assert(self@.cells =~= with_cell(before.cells, c@.name));
        }
        true
    }

    /// Add a cell with the given name; returns whether it was newly created
    /// (`false` if a cell of that name already existed).
    pub fn add_cell(&mut self, name: &str) -> (created: bool)
        requires
            old(self).wf(),
        ensures
            final(self).wf(),
            created == !has_cell(old(self)@.cells, name@),
            final(self)@ == (GdsModel { cells: with_cell(old(self)@.cells, name@), ..old(self)@ }),
            writable(old(self)@) && text_writable(name@) ==> writable(final(self)@),
    {
        proof {
            if writable(self@) && text_writable(name@) {
                lemma_with_cell_writable(self@, name@);
            }
        }
        self.add_cell_string(String::from_str(name))
    }

    fn push_element(&mut self, i: usize, e: Element)
        requires
            old(self).wf(),
            i < old(self)@.cells.len(),
        ensures
            final(self).wf(),
            final(self)@ == (GdsModel { cells: with_element(old(self)@.cells, i as int, e@), ..old(self)@ }),
    {
        let ghost before = self@;
        let ghost ev = e@;
        let ghost old_cells = self.cells@;
        self.cells[i].elements.push(e);
        proof {
            lemma_with_element(before.cells, i as int, ev);
            assert(self.cells@[i as int].elements@.map_values(|x: Element| x@) =~= before.cells[i as int].elements.push(ev));
            assert forall|j: int| 0 <= j < self.cells@.len() && j != i implies self.cells@[j] == old_cells[j] by {}
            assert(self@.cells =~= with_element(before.cells, i as int, ev));
        }
    }

    /// Add a rectangular `BOUNDARY` (in database units) on `layer` to the
    /// named cell, creating the cell if absent. `(x, y)` is the lower-left
    /// corner, `w` and `h` the width and height; the outline is the usual five
    /// closed points.
    pub fn add_rect(&mut self, cell: &str, layer: i16, x: i32, y: i32, w: i32, h: i32)
        requires
            old(self).wf(),
            i32::MIN <= x + w <= i32::MAX,
            i32::MIN <= y + h <= i32::MAX,
        ensures
            final(self).wf(),
            final(self)@ == (GdsModel {
                cells: with_element(
                    with_cell(old(self)@.cells, cell@),
                    cell_pos(with_cell(old(self)@.cells, cell@), cell@),
                    ElementModel::Boundary { layer, datatype: 0, xy: rect_outline(x, y, w, h) },
                ),
                ..old(self)@
            }),
            writable(old(self)@) && text_writable(cell@) ==> writable(final(self)@),
    {
        proof {
            if writable(self@) && text_writable(cell@) {
                lemma_add_rect_writable(
                    self@,
                    cell@,
                    ElementModel::Boundary { layer, datatype: 0, xy: rect_outline(x, y, w, h) },
                );
            }
        }
        let key = String::from_str(cell);
        proof {
            lemma_with_cell(self@.cells, cell@);
        }
        let idx = match self.find_cell(&key) {
            Some(i) => i,
            None => {
                self.add_cell_string(key);
                self.cells.len() - 1
            },
        };
        let xy = vec![x, y, x + w, y, x + w, y + h, x, y + h, x, y];
        proof {
            assert(xy@ =~= rect_outline(x, y, w, h));
        }
        self.push_element(idx, Element::Boundary { layer, datatype: 0, xy });
    }
}

// ===========================================================================
// Records and their encoding
// ===========================================================================

/// A record as plain values: its type, data type and payload.
pub struct Rec {
    pub rtype: u8,
    pub dtype: u8,
    pub data: Seq<u8>,
}

/// The four header bytes of a record with a payload of `plen` bytes: the total
/// length as a big-endian `u16` (wrapping, as a `u16` cast does), then the
/// record and data types.
pub open spec fn rec_header(rtype: u8, dtype: u8, plen: int) -> Seq<u8> {
    let t = (plen + 4) % 65536;
    seq![(t / 256) as u8, (t % 256) as u8, rtype, dtype]
}

/// The bytes of one record.
pub open spec fn enc_rec(r: Rec) -> Seq<u8> {
    rec_header(r.rtype, r.dtype, r.data.len() as int) + r.data
}

/// The bytes of a list of records, one after another.
pub open spec fn enc_all(rs: Seq<Rec>) -> Seq<u8>
    decreases rs.len(),
{
    if rs.len() == 0 {
        seq![]
    } else {
        enc_rec(rs[0]) + enc_all(rs.drop_first())
    }
}

/// Appending a record appends its bytes.
pub proof fn lemma_enc_all_push(rs: Seq<Rec>, r: Rec)
    ensures
        enc_all(rs.push(r)) == enc_all(rs) + enc_rec(r),
    decreases rs.len(),
{
    if rs.len() == 0 {
        assert(rs.push(r).drop_first() =~= Seq::<Rec>::empty());
        assert(enc_all(Seq::<Rec>::empty()) =~= Seq::<u8>::empty());
        assert(enc_all(rs.push(r)) =~= enc_all(rs) + enc_rec(r));
    } else {
        lemma_enc_all_push(rs.drop_first(), r);
        assert(rs.push(r).drop_first() =~= rs.drop_first().push(r));
        assert(enc_all(rs.push(r)) =~= enc_all(rs) + enc_rec(r));
    }
}

/// An `i16` as a 16-bit two's complement value.
pub open spec fn u16_of(v: i16) -> int {
    if v < 0 {
        v + 65536
    } else {
        v as int
    }
}

/// The big-endian bytes of an `i16`.
pub open spec fn i16_be(v: i16) -> Seq<u8> {
    seq![(u16_of(v) / 256) as u8, (u16_of(v) % 256) as u8]
}

/// The big-endian bytes of a list of `i16`.
pub open spec fn i16s_be(vs: Seq<i16>) -> Seq<u8>
    decreases vs.len(),
{
    if vs.len() == 0 {
        seq![]
    } else {
        i16s_be(vs.drop_last()) + i16_be(vs.last())
    }
}

/// An `i32` as a 32-bit two's complement value.
pub open spec fn u32_of(v: i32) -> int {
    if v < 0 {
        v + 4294967296
    } else {
        v as int
    }
}

/// The big-endian bytes of an `i32`.
pub open spec fn i32_be(v: i32) -> Seq<u8> {
    let u = u32_of(v);
    seq![(u / 16777216) as u8, (u / 65536 % 256) as u8, (u / 256 % 256) as u8, (u % 256) as u8]
}

/// The big-endian bytes of a list of `i32`.
pub open spec fn i32s_be(vs: Seq<i32>) -> Seq<u8>
    decreases vs.len(),
{
    if vs.len() == 0 {
        seq![]
    } else {
        i32s_be(vs.drop_last()) + i32_be(vs.last())
    }
}

/// An ASCII payload: the UTF-8 bytes of the text, NUL-padded to even length.
pub open spec fn ascii_payload(s: Seq<char>) -> Seq<u8> {
    let b = vstd::utf8::encode_utf8(s);
    if b.len() % 2 == 1 {
        b.push(0u8)
    } else {
        b
    }
}

/// A record without payload.
pub open spec fn nodata_rec(rtype: u8) -> Rec {
    Rec { rtype, dtype: DT_NODATA, data: seq![] }
}

/// An INT2 record.
pub open spec fn int2_rec(rtype: u8, vs: Seq<i16>) -> Rec {
    Rec { rtype, dtype: DT_INT2, data: i16s_be(vs) }
}

/// An INT4 record.
pub open spec fn int4_rec(rtype: u8, vs: Seq<i32>) -> Rec {
    Rec { rtype, dtype: DT_INT4, data: i32s_be(vs) }
}

/// An ASCII record.
pub open spec fn ascii_rec(rtype: u8, s: Seq<char>) -> Rec {
    Rec { rtype, dtype: DT_ASCII, data: ascii_payload(s) }
}

/// Twelve zero `i16`: the (unset) timestamps of `BGNLIB` and `BGNSTR`.
pub open spec fn zero_stamps() -> Seq<i16> {
    Seq::new(12, |i: int| 0i16)
}

/// The records of one element. Paths and references are written in a
/// minimal, valid shape so that the element count is kept.
pub open spec fn elem_recs(e: ElementModel) -> Seq<Rec> {
    match e {
        ElementModel::Boundary { layer, datatype, xy } => seq![
            nodata_rec(RT_BOUNDARY),
            int2_rec(RT_LAYER, seq![layer]),
            int2_rec(RT_DATATYPE, seq![datatype]),
            int4_rec(RT_XY, xy),
            nodata_rec(RT_ENDEL),
        ],
        ElementModel::Path => seq![
            nodata_rec(RT_PATH),
            int2_rec(RT_LAYER, seq![0i16]),
            int2_rec(RT_DATATYPE, seq![0i16]),
            int4_rec(RT_XY, seq![0i32, 0i32]),
            nodata_rec(RT_ENDEL),
        ],
        ElementModel::Sref => seq![
            nodata_rec(RT_SREF),
            ascii_rec(RT_STRNAME, seq![]),
            int4_rec(RT_XY, seq![0i32, 0i32]),
            nodata_rec(RT_ENDEL),
        ],
    }
}

/// The records of a list of elements.
pub open spec fn elems_recs(es: Seq<ElementModel>) -> Seq<Rec>
    decreases es.len(),
{
    if es.len() == 0 {
        seq![]
    } else {
        elems_recs(es.drop_last()) + elem_recs(es.last())
    }
}

/// The records of one cell: `BGNSTR`, `STRNAME`, its elements, `ENDSTR`.
pub open spec fn cell_recs(c: CellModel) -> Seq<Rec> {
    seq![int2_rec(RT_BGNSTR, zero_stamps()), ascii_rec(RT_STRNAME, c.name)] + elems_recs(c.elements)
        + seq![nodata_rec(RT_ENDSTR)]
}

/// The records of a list of cells.
pub open spec fn cells_recs(cs: Seq<CellModel>) -> Seq<Rec>
    decreases cs.len(),
{
    if cs.len() == 0 {
        seq![]
    } else {
        cells_recs(cs.drop_last()) + cell_recs(cs.last())
    }
}

/// The opening records of a library: `HEADER` (stream version 600),
/// `BGNLIB`, `LIBNAME` and `UNITS`.
pub open spec fn lib_head_recs(m: GdsModel) -> Seq<Rec> {
    seq![
        int2_rec(RT_HEADER, seq![600i16]),
        int2_rec(RT_BGNLIB, zero_stamps()),
        ascii_rec(RT_LIBNAME, m.lib_name),
        Rec { rtype: RT_UNITS, dtype: DT_REAL8, data: m.units },
    ]
}

/// All records of a library, in the order [`Gds::write`] emits them.
pub open spec fn gds_recs(m: GdsModel) -> Seq<Rec> {
    lib_head_recs(m) + cells_recs(m.cells) + seq![nodata_rec(RT_ENDLIB)]
}

/// The GDSII stream of a library.
pub open spec fn spec_write(m: GdsModel) -> Seq<u8> {
    enc_all(gds_recs(m))
}

// ---------------------------------------------------------------------------
// Record writers
// ---------------------------------------------------------------------------

fn write_header(out: &mut Vec<u8>, rtype: u8, dtype: u8, plen_mod: usize, Ghost(plen): Ghost<int>)
    requires
        plen_mod < 65536,
        plen_mod == plen % 65536,
    ensures
        final(out)@ == old(out)@ + rec_header(rtype, dtype, plen),
{
    let t: usize = if plen_mod + 4 >= 65536 { plen_mod + 4 - 65536 } else { plen_mod + 4 };
    proof {
        assert(t == (plen + 4) % 65536) by {
            assert(plen == 65536 * (plen / 65536) + plen_mod);
            assert((plen + 4) == 65536 * (plen / 65536) + (plen_mod + 4));
        }
    }
    out.push((t / 256) as u8);
    out.push((t % 256) as u8);
    out.push(rtype);
    out.push(dtype);
    proof {
        assert(final(out)@ =~= old(out)@ + rec_header(rtype, dtype, plen));
    }
}

fn write_nodata(out: &mut Vec<u8>, rtype: u8)
    ensures
        final(out)@ == old(out)@ + enc_rec(nodata_rec(rtype)),
{
    write_header(out, rtype, DT_NODATA, 0, Ghost(0));
    proof {
        assert(final(out)@ =~= old(out)@ + enc_rec(nodata_rec(rtype)));
    }
}

proof fn lemma_i16s_be_len(vs: Seq<i16>)
    ensures
        i16s_be(vs).len() == 2 * vs.len(),
    decreases vs.len(),
{
    if vs.len() > 0 {
        lemma_i16s_be_len(vs.drop_last());
    }
}

proof fn lemma_i32s_be_len(vs: Seq<i32>)
    ensures
        i32s_be(vs).len() == 4 * vs.len(),
    decreases vs.len(),
{
    if vs.len() > 0 {
        lemma_i32s_be_len(vs.drop_last());
    }
}

proof fn lemma_mod_scaled(n: int, k: int, m: int)
    requires
        n >= 0,
        k > 0,
        m > 0,
    ensures
        (k * n) % (k * m) == k * (n % m),
{
    assert(n == m * (n / m) + n % m) by (nonlinear_arith)
        requires
            m > 0,
    ;
    assert(k * n == (n / m) * (k * m) + k * (n % m)) by (nonlinear_arith)
        requires
            n == m * (n / m) + n % m,
    ;
    assert(k * m > 0) by (nonlinear_arith)
        requires
            k > 0,
            m > 0,
    ;
    assert(0 <= k * (n % m) < k * m) by (nonlinear_arith)
        requires
            k > 0,
            m > 0,
            0 <= n % m < m,
    ;
    vstd::arithmetic::div_mod::lemma_fundamental_div_mod_converse(
        k * n,
        k * m,
        n / m,
        k * (n % m),
    );
}

fn push_i16(out: &mut Vec<u8>, v: i16)
    ensures
        final(out)@ == old(out)@ + i16_be(v),
{
    let u: u32 = if v < 0 {
        (v as i32 + 65536) as u32
    } else {
        v as u32
    };
    out.push((u / 256) as u8);
    out.push((u % 256) as u8);
    proof {
        assert(final(out)@ =~= old(out)@ + i16_be(v));
    }
}

fn push_i32(out: &mut Vec<u8>, v: i32)
    ensures
        final(out)@ == old(out)@ + i32_be(v),
{
    let u: u64 = if v < 0 {
        (v as i64 + 4294967296) as u64
    } else {
        v as u64
    };
    out.push((u / 16777216) as u8);
    out.push((u / 65536 % 256) as u8);
    out.push((u / 256 % 256) as u8);
    out.push((u % 256) as u8);
    proof {
        assert(final(out)@ =~= old(out)@ + i32_be(v));
    }
}

fn write_int2(out: &mut Vec<u8>, rtype: u8, vals: &Vec<i16>)
    ensures
        final(out)@ == old(out)@ + enc_rec(int2_rec(rtype, vals@)),
{
    let n = vals.len();
    proof {
        lemma_i16s_be_len(vals@);
        lemma_mod_scaled(n as int, 2, 32768);
    }
    write_header(out, rtype, DT_INT2, (n % 32768) * 2, Ghost(2 * n as int));
    let ghost start = out@;
    let mut i: usize = 0;
    while i < vals.len()
        invariant
            i <= vals@.len(),
            out@ == start + i16s_be(vals@.take(i as int)),
        decreases vals@.len() - i,
    {
        push_i16(out, vals[i]);
        proof {
            assert(vals@.take(i + 1).drop_last() =~= vals@.take(i as int));
            assert(out@ =~= start + i16s_be(vals@.take(i + 1)));
        }
        i = i + 1;
    }
    proof {
        assert(vals@.take(i as int) =~= vals@);
        assert(final(out)@ =~= old(out)@ + enc_rec(int2_rec(rtype, vals@)));
    }
}

fn write_int4(out: &mut Vec<u8>, rtype: u8, vals: &Vec<i32>)
    ensures
        final(out)@ == old(out)@ + enc_rec(int4_rec(rtype, vals@)),
{
    let n = vals.len();
    proof {
        lemma_i32s_be_len(vals@);
        lemma_mod_scaled(n as int, 4, 16384);
    }
    write_header(out, rtype, DT_INT4, (n % 16384) * 4, Ghost(4 * n as int));
    let ghost start = out@;
    let mut i: usize = 0;
    while i < vals.len()
        invariant
            i <= vals@.len(),
            out@ == start + i32s_be(vals@.take(i as int)),
        decreases vals@.len() - i,
    {
        push_i32(out, vals[i]);
        proof {
            assert(vals@.take(i + 1).drop_last() =~= vals@.take(i as int));
            assert(out@ =~= start + i32s_be(vals@.take(i + 1)));
        }
        i = i + 1;
    }
    proof {
        assert(vals@.take(i as int) =~= vals@);
        assert(final(out)@ =~= old(out)@ + enc_rec(int4_rec(rtype, vals@)));
    }
}

fn write_raw(out: &mut Vec<u8>, rtype: u8, dtype: u8, data: &Vec<u8>)
    ensures
        final(out)@ == old(out)@ + enc_rec(Rec { rtype, dtype, data: data@ }),
{
    let n = data.len();
    write_header(out, rtype, dtype, n % 65536, Ghost(n as int));
    let ghost start = out@;
    let mut i: usize = 0;
    while i < data.len()
        invariant
            i <= data@.len(),
            out@ == start + data@.take(i as int),
        decreases data@.len() - i,
    {
        out.push(data[i]);
        proof {
            assert(out@ =~= start + data@.take(i + 1));
        }
        i = i + 1;
    }
    proof {
        assert(data@.take(i as int) =~= data@);
        assert(final(out)@ =~= old(out)@ + enc_rec(Rec { rtype, dtype, data: data@ }));
    }
}

fn write_ascii(out: &mut Vec<u8>, rtype: u8, s: &str)
    ensures
        final(out)@ == old(out)@ + enc_rec(ascii_rec(rtype, s@)),
{
    let bytes = s.as_bytes();
    let n = bytes.len();
    let r = n % 65536;
    let odd = n % 2 == 1;
    let padded_mod: usize = if odd { (r + 1) % 65536 } else { r };
    let ghost payload = ascii_payload(s@);
    proof {
        assert(bytes@ == vstd::utf8::encode_utf8(s@));
        assert(n == 65536 * (n / 65536) + r);
        assert(padded_mod == payload.len() % 65536);
    }
    write_header(out, rtype, DT_ASCII, padded_mod, Ghost(payload.len() as int));
    let ghost start = out@;
    let mut i: usize = 0;
    while i < n
        invariant
            n == bytes@.len(),
            i <= n,
            out@ == start + bytes@.take(i as int),
        decreases n - i,
    {
        out.push(bytes[i]);
        proof {
            assert(out@ =~= start + bytes@.take(i + 1));
        }
        i = i + 1;
    }
    if odd {
        out.push(0u8);
    }
    proof {
        assert(bytes@.take(i as int) =~= bytes@);
        assert(final(out)@ =~= old(out)@ + enc_rec(ascii_rec(rtype, s@)));
    }
}

fn write_element(out: &mut Vec<u8>, el: &Element)
    ensures
        final(out)@ == old(out)@ + enc_all(elem_recs(el@)),
{
    let ghost start = out@;
    let ghost mut recs: Seq<Rec> = seq![];
    proof {
        assert(start + enc_all(recs) =~= start);
    }
    match el {
        Element::Boundary { layer, datatype, xy } => {
            write_nodata(out, RT_BOUNDARY);
            proof {
                lemma_enc_all_push(recs, nodata_rec(RT_BOUNDARY));
                recs = recs.push(nodata_rec(RT_BOUNDARY));
            }
            let lv = vec![*layer];
            proof {
                assert(lv@ =~= seq![*layer]);
            }
            write_int2(out, RT_LAYER, &lv);
            proof {
                lemma_enc_all_push(recs, int2_rec(RT_LAYER, lv@));
                recs = recs.push(int2_rec(RT_LAYER, lv@));
            }
            let dv = vec![*datatype];
            proof {
                assert(dv@ =~= seq![*datatype]);
            }
            write_int2(out, RT_DATATYPE, &dv);
            proof {
                lemma_enc_all_push(recs, int2_rec(RT_DATATYPE, dv@));
                recs = recs.push(int2_rec(RT_DATATYPE, dv@));
            }
            write_int4(out, RT_XY, xy);
            proof {
                lemma_enc_all_push(recs, int4_rec(RT_XY, xy@));
                recs = recs.push(int4_rec(RT_XY, xy@));
            }
            write_nodata(out, RT_ENDEL);
            proof {
                lemma_enc_all_push(recs, nodata_rec(RT_ENDEL));
                recs = recs.push(nodata_rec(RT_ENDEL));
                assert(recs =~= elem_recs(el@));
            }
        },
        Element::Path => {
            write_nodata(out, RT_PATH);
            proof {
                lemma_enc_all_push(recs, nodata_rec(RT_PATH));
                recs = recs.push(nodata_rec(RT_PATH));
            }
            let lv = vec![0i16];
            proof {
                assert(lv@ =~= seq![0i16]);
            }
            write_int2(out, RT_LAYER, &lv);
            proof {
                lemma_enc_all_push(recs, int2_rec(RT_LAYER, lv@));
                recs = recs.push(int2_rec(RT_LAYER, lv@));
            }
            let dv = vec![0i16];
            proof {
                assert(dv@ =~= seq![0i16]);
            }
            write_int2(out, RT_DATATYPE, &dv);
            proof {
                lemma_enc_all_push(recs, int2_rec(RT_DATATYPE, dv@));
                recs = recs.push(int2_rec(RT_DATATYPE, dv@));
            }
            let xy = vec![0i32, 0i32];
            proof {
                assert(xy@ =~= seq![0i32, 0i32]);
            }
            write_int4(out, RT_XY, &xy);
            proof {
                lemma_enc_all_push(recs, int4_rec(RT_XY, xy@));
                recs = recs.push(int4_rec(RT_XY, xy@));
            }
            write_nodata(out, RT_ENDEL);
            proof {
                lemma_enc_all_push(recs, nodata_rec(RT_ENDEL));
                recs = recs.push(nodata_rec(RT_ENDEL));
                assert(recs =~= elem_recs(el@));
            }
        },
        Element::Sref => {
            write_nodata(out, RT_SREF);
            proof {
                lemma_enc_all_push(recs, nodata_rec(RT_SREF));
                recs = recs.push(nodata_rec(RT_SREF));
            }
            write_ascii(out, RT_STRNAME, "");
            proof {
                reveal_strlit("");
                assert(""@ =~= Seq::<char>::empty());
                lemma_enc_all_push(recs, ascii_rec(RT_STRNAME, seq![]));
                recs = recs.push(ascii_rec(RT_STRNAME, seq![]));
            }
            let xy = vec![0i32, 0i32];
            proof {
                assert(xy@ =~= seq![0i32, 0i32]);
            }
            write_int4(out, RT_XY, &xy);
            proof {
                lemma_enc_all_push(recs, int4_rec(RT_XY, xy@));
                recs = recs.push(int4_rec(RT_XY, xy@));
            }
            write_nodata(out, RT_ENDEL);
            proof {
                lemma_enc_all_push(recs, nodata_rec(RT_ENDEL));
                recs = recs.push(nodata_rec(RT_ENDEL));
                assert(recs =~= elem_recs(el@));
            }
        },
    }
}

/// Appending a list of records appends their bytes.
pub proof fn lemma_enc_all_concat(a: Seq<Rec>, b: Seq<Rec>)
    ensures
        enc_all(a + b) == enc_all(a) + enc_all(b),
    decreases b.len(),
{
    if b.len() == 0 {
        assert(a + b =~= a);
        assert(enc_all(b) =~= Seq::<u8>::empty());
        assert(enc_all(a) + enc_all(b) =~= enc_all(a));
    } else {
        lemma_enc_all_concat(a, b.drop_last());
        lemma_enc_all_push(a + b.drop_last(), b.last());
        lemma_enc_all_push(b.drop_last(), b.last());
        assert(a + b =~= (a + b.drop_last()).push(b.last()));
        assert(b =~= b.drop_last().push(b.last()));
    }
}

fn write_timestamps(out: &mut Vec<u8>, rtype: u8)
    ensures
        final(out)@ == old(out)@ + enc_rec(int2_rec(rtype, zero_stamps())),
{
    let z = vec![0i16, 0i16, 0i16, 0i16, 0i16, 0i16, 0i16, 0i16, 0i16, 0i16, 0i16, 0i16];
    proof {
        assert(z@ =~= zero_stamps());
    }
    write_int2(out, rtype, &z);
}

impl Gds {
    /// Serialize to a GDSII binary stream (see [`spec_write`]).
    ///
    /// `Gds::read(&g.write())` gives the library back (see
    /// [`lemma_read_write`]).
    pub fn write(&self) -> (bytes: Vec<u8>)
        ensures
            bytes@ == spec_write(self@),
            self.wf() && writable(self@) ==> spec_read(bytes@) == Ok::<GdsModel, GdsError>(as_read(self@)),
    {
        proof {
            if self.wf() && writable(self@) {
                lemma_read_write(self@);
            }
        }
        let mut out: Vec<u8> = Vec::new();
        let ghost mut recs: Seq<Rec> = seq![];
        let v600 = vec![600i16];
        proof {
            assert(v600@ =~= seq![600i16]);
            assert(enc_all(recs) =~= out@);
        }
        write_int2(&mut out, RT_HEADER, &v600);
        proof {
            lemma_enc_all_push(recs, int2_rec(RT_HEADER, seq![600i16]));
            recs = recs.push(int2_rec(RT_HEADER, seq![600i16]));
        }
        write_timestamps(&mut out, RT_BGNLIB);
        proof {
            lemma_enc_all_push(recs, int2_rec(RT_BGNLIB, zero_stamps()));
            recs = recs.push(int2_rec(RT_BGNLIB, zero_stamps()));
        }
        write_ascii(&mut out, RT_LIBNAME, self.lib_name.as_str());
        proof {
            lemma_enc_all_push(recs, ascii_rec(RT_LIBNAME, self@.lib_name));
            recs = recs.push(ascii_rec(RT_LIBNAME, self@.lib_name));
        }
        write_raw(&mut out, RT_UNITS, DT_REAL8, &self.units);
        let ghost head = lib_head_recs(self@);
        proof {
            lemma_enc_all_push(recs, Rec { rtype: RT_UNITS, dtype: DT_REAL8, data: self@.units });
            recs = recs.push(Rec { rtype: RT_UNITS, dtype: DT_REAL8, data: self@.units });
            assert(recs =~= head);
            assert(self@.cells.take(0) =~= Seq::<CellModel>::empty());
            assert(head + cells_recs(self@.cells.take(0)) =~= head);
        }
        let mut i: usize = 0;
        while i < self.cells.len()
            invariant
                i <= self.cells@.len(),
                head == lib_head_recs(self@),
                out@ == enc_all(head + cells_recs(self@.cells.take(i as int))),
            decreases self.cells@.len() - i,
        {
            let cell = &self.cells[i];
            let ghost before = head + cells_recs(self@.cells.take(i as int));
            let ghost mut recs: Seq<Rec> = before;
            write_timestamps(&mut out, RT_BGNSTR);
            proof {
                lemma_enc_all_push(recs, int2_rec(RT_BGNSTR, zero_stamps()));
                recs = recs.push(int2_rec(RT_BGNSTR, zero_stamps()));
            }
            write_ascii(&mut out, RT_STRNAME, cell.name.as_str());
            proof {
                lemma_enc_all_push(recs, ascii_rec(RT_STRNAME, cell@.name));
                recs = recs.push(ascii_rec(RT_STRNAME, cell@.name));
            }
            let ghost mid = recs;
            let mut j: usize = 0;
            while j < cell.elements.len()
                invariant
                    j <= cell.elements@.len(),
                    out@ == enc_all(mid + elems_recs(cell@.elements.take(j as int))),
                decreases cell.elements@.len() - j,
            {
                let ghost prev = mid + elems_recs(cell@.elements.take(j as int));
                write_element(&mut out, &cell.elements[j]);
                proof {
                    lemma_enc_all_concat(prev, elem_recs(cell.elements@[j as int]@));
                    assert(cell@.elements.take(j + 1).drop_last() =~= cell@.elements.take(j as int));
                    assert(cell@.elements.take(j + 1).last() == cell.elements@[j as int]@);
                    assert(mid + elems_recs(cell@.elements.take(j + 1)) =~= prev + elem_recs(
                        cell.elements@[j as int]@,
                    ));
                }
                j = j + 1;
            }
            write_nodata(&mut out, RT_ENDSTR);
            proof {
                assert(cell@.elements.take(j as int) =~= cell@.elements);
                lemma_enc_all_push(mid + elems_recs(cell@.elements), nodata_rec(RT_ENDSTR));
                assert(self@.cells.take(i + 1).drop_last() =~= self@.cells.take(i as int));
                assert(self@.cells.take(i + 1).last() == cell@);
                assert(head + cells_recs(self@.cells.take(i + 1)) =~= (mid + elems_recs(
                    cell@.elements,
                )).push(nodata_rec(RT_ENDSTR)));
            }
            i = i + 1;
        }
        write_nodata(&mut out, RT_ENDLIB);
        proof {
            assert(self@.cells.take(i as int) =~= self@.cells);
            lemma_enc_all_push(head + cells_recs(self@.cells), nodata_rec(RT_ENDLIB));
            assert(gds_recs(self@) =~= (head + cells_recs(self@.cells)).push(nodata_rec(RT_ENDLIB)));
        }
        out
    }
}

// ===========================================================================
// Reading
// ===========================================================================

/// The record at `pos` and the position after it, `Ok(None)` at the end of
/// the stream, or the error the record header shows.
pub open spec fn next_rec(b: Seq<u8>, pos: int) -> Result<Option<(Rec, int)>, GdsError> {
    let rem = b.len() - pos;
    if rem <= 0 {
        Ok(None)
    } else if rem < 4 {
        Err(GdsError::UnexpectedEof)
    } else {
        let len = b[pos] as int * 256 + b[pos + 1] as int;
        if len < 4 || len > rem {
            Err(GdsError::BadRecordLength { offset: pos as usize, len: len as usize })
        } else {
            Ok(
                Some(
                    (
                        Rec { rtype: b[pos + 2], dtype: b[pos + 3], data: b.subrange(pos + 4, pos + len) },
                        pos + len,
                    ),
                ),
            )
        }
    }
}

/// A big-endian `i16`.
pub open spec fn i16_of(hi: u8, lo: u8) -> i16 {
    let u = hi as int * 256 + lo as int;
    if u >= 32768 {
        (u - 65536) as i16
    } else {
        u as i16
    }
}

/// The `i16` values of an INT2 payload.
pub open spec fn decode_i16s(d: Seq<u8>) -> Seq<i16> {
    Seq::new(d.len() / 2, |k: int| i16_of(d[2 * k], d[2 * k + 1]))
}

/// A big-endian `i32`.
pub open spec fn i32_of(b0: u8, b1: u8, b2: u8, b3: u8) -> i32 {
    let u = b0 as int * 16777216 + b1 as int * 65536 + b2 as int * 256 + b3 as int;
    if u >= 2147483648 {
        (u - 4294967296) as i32
    } else {
        u as i32
    }
}

/// The `i32` values of an INT4 payload.
pub open spec fn decode_i32s(d: Seq<u8>) -> Seq<i32> {
    Seq::new(d.len() / 4, |k: int| i32_of(d[4 * k], d[4 * k + 1], d[4 * k + 2], d[4 * k + 3]))
}

/// The position of the first NUL byte at or after `i`, or the length.
pub open spec fn nul_from(d: Seq<u8>, i: int) -> int
    decreases d.len() - i,
{
    if i >= d.len() {
        d.len() as int
    } else if d[i] == 0 {
        i
    } else {
        nul_from(d, i + 1)
    }
}

/// The text of an ASCII payload: its bytes up to the first NUL, each read as
/// the character of that code.
pub open spec fn ascii_text(d: Seq<u8>) -> Seq<char> {
    Seq::new(nul_from(d, 0) as nat, |i: int| d[i] as char)
}

/// The name given to a cell created for an element found outside any
/// structure, when `n` cells exist.
pub open spec fn orphan_name(n: nat) -> Seq<char> {
    "$ORPHAN_"@ + nat_digits(n)
}

// ---------------------------------------------------------------------------
// Normalizing eight-byte reals
// ---------------------------------------------------------------------------

/// The 56-bit mantissa of an eight-byte GDSII real (bytes 1 to 7, big-endian).
pub open spec fn real8_mantissa(b: Seq<u8>) -> nat {
    b[1] as nat * 0x1_0000_0000_0000 + b[2] as nat * 0x100_0000_0000 + b[3] as nat * 0x1_0000_0000
        + b[4] as nat * 0x100_0000 + b[5] as nat * 0x1_0000 + b[6] as nat * 0x100 + b[7] as nat
}

/// A 56-bit mantissa rounded to 53 significant bits, ties to even: the
/// mantissa a double can hold.
pub open spec fn round_mantissa(m: nat) -> nat {
    let p: nat = if m < 0x20_0000_0000_0000 {
        1
    } else if m < 0x40_0000_0000_0000 {
        2
    } else if m < 0x80_0000_0000_0000 {
        4
    } else {
        8
    };
    let q = m / p;
    let r = m % p;
    if r * 2 > p || (r * 2 == p && q % 2 == 1) {
        (q + 1) * p
    } else {
        q * p
    }
}

/// How many hex digits a non-zero mantissa below 2^56 moves up until its top
/// hex digit is non-zero (it reaches 2^52).
pub open spec fn hex_shift(n: nat) -> nat
    decreases 0x100_0000_0000_0000 - n,
{
    if n == 0 || n >= 0x10_0000_0000_0000 {
        0
    } else {
        1 + hex_shift(n * 16)
    }
}

/// Sixteen to the power `d`.
pub open spec fn pow16(d: nat) -> nat
    decreases d,
{
    if d == 0 {
        1
    } else {
        16 * pow16((d - 1) as nat)
    }
}

/// The seven big-endian bytes of a 56-bit mantissa.
pub open spec fn be7(n: nat) -> Seq<u8> {
    seq![
        (n / 0x1_0000_0000_0000 % 256) as u8,
        (n / 0x100_0000_0000 % 256) as u8,
        (n / 0x1_0000_0000 % 256) as u8,
        (n / 0x100_0000 % 256) as u8,
        (n / 0x1_0000 % 256) as u8,
        (n / 0x100 % 256) as u8,
        (n % 256) as u8,
    ]
}

/// Eight zero bytes: the GDSII real zero.
pub open spec fn real8_zero() -> Seq<u8> {
    seq![0u8, 0u8, 0u8, 0u8, 0u8, 0u8, 0u8, 0u8]
}

/// An eight-byte GDSII real as the reader keeps it: read as a double and
/// written back. The mantissa is rounded to 53 significant bits (ties to
/// even) and normalized so that its top hex digit is non-zero; zero, and a
/// value whose normalized exponent leaves the excess-64 range, become eight
/// zero bytes.
pub open spec fn normalize_real8(b: Seq<u8>) -> Seq<u8> {
    let m = real8_mantissa(b);
    let e = (b[0] % 128) as int;
    let sign = (b[0] / 128) as int;
    if m == 0 {
        real8_zero()
    } else {
        let mr = round_mantissa(m);
        let (n, k) = if mr >= 0x100_0000_0000_0000 {
            (mr / 16, e + 1)
        } else {
            (mr * pow16(hex_shift(mr)), e - hex_shift(mr))
        };
        if 0 <= k <= 127 {
            seq![(k + sign * 128) as u8] + be7(n)
        } else {
            real8_zero()
        }
    }
}

/// The two reals of `UNITS` as the reader keeps them.
#[verifier::opaque]
pub open spec fn normalize_units(u: Seq<u8>) -> Seq<u8> {
    normalize_real8(u.subrange(0, 8)) + normalize_real8(u.subrange(8, 16))
}

/// A library as reading it back gives it: its `UNITS` normalized.
pub open spec fn as_read(m: GdsModel) -> GdsModel {
    GdsModel { units: normalize_units(m.units), ..m }
}

/// The `UNITS` of a new library are already normalized.
pub proof fn lemma_default_units_normalized()
    ensures
        normalize_units(default_units()) == default_units(),
{
    reveal(normalize_units);
    let u = default_units();
    let a = u.subrange(0, 8);
    let b = u.subrange(8, 16);
    assert(real8_mantissa(a) == 0x41_8937_4bc6_a7f0);
    assert(real8_mantissa(b) == 0x44_b82f_a09b_5a54);
    assert(round_mantissa(0x41_8937_4bc6_a7f0) == 0x41_8937_4bc6_a7f0);
    assert(round_mantissa(0x44_b82f_a09b_5a54) == 0x44_b82f_a09b_5a54);
    assert(hex_shift(0x41_8937_4bc6_a7f0) == 0);
    assert(hex_shift(0x44_b82f_a09b_5a54) == 0);
    assert(pow16(0) == 1);
    assert(normalize_real8(a) =~= a);
    assert(normalize_real8(b) =~= b);
    assert(a + b =~= u);
}

proof fn lemma_pow16_pos(a: nat)
    ensures
        pow16(a) >= 1,
    decreases a,
{
    if a > 0 {
        lemma_pow16_pos((a - 1) as nat);
    }
}

proof fn lemma_pow16_mono(a: nat, b: nat)
    requires
        a <= b,
    ensures
        1 <= pow16(a) <= pow16(b),
    decreases b,
{
    lemma_pow16_pos(a);
    if a < b {
        lemma_pow16_mono(a, (b - 1) as nat);
    }
}

/// A 56-bit mantissa rounded to 53 significant bits, ties to even.
fn round_mantissa_exec(m: u64) -> (mr: u64)
    requires
        0 < m < 0x100_0000_0000_0000,
    ensures
        mr as nat == round_mantissa(m as nat),
        0 < mr <= 0x100_0000_0000_0000,
{
    let p: u64 = if m < 0x20_0000_0000_0000 {
        1
    } else if m < 0x40_0000_0000_0000 {
        2
    } else if m < 0x80_0000_0000_0000 {
        4
    } else {
        8
    };
    let q = m / p;
    let rem = m % p;
    if rem * 2 > p || (rem * 2 == p && q % 2 == 1) {
        (q + 1) * p
    } else {
        q * p
    }
}

/// A non-zero mantissa below 2^56 moved up by whole hex digits until it
/// reaches 2^52, with the number of digits moved.
fn shift_up_exec(mr: u64) -> (r: (u64, i64))
    requires
        0 < mr < 0x100_0000_0000_0000,
    ensures
        r.0 as nat == mr as nat * pow16(hex_shift(mr as nat)),
        r.1 as nat == hex_shift(mr as nat),
        0 <= r.1 <= 14,
        r.0 < 0x100_0000_0000_0000,
{
    let mut n = mr;
    let mut d: i64 = 0;
    proof {
        assert(pow16(0) == 1);
        assert(mr as nat * pow16(0) == mr as nat) by (nonlinear_arith)
            requires
                pow16(0) == 1,
        ;
    }
    while n < 0x10_0000_0000_0000
        invariant
            0 < mr <= n < 0x100_0000_0000_0000,
            0 <= d,
            n as nat == mr as nat * pow16(d as nat),
            pow16(d as nat) <= n,
            d as nat + hex_shift(n as nat) == hex_shift(mr as nat),
        decreases 0x100_0000_0000_0000 - n,
    {
        proof {
            assert(pow16((d + 1) as nat) == 16 * pow16(d as nat));
            assert(mr as nat * pow16((d + 1) as nat) == (mr as nat * pow16(d as nat)) * 16)
                by (nonlinear_arith)
                requires
                    pow16((d + 1) as nat) == 16 * pow16(d as nat),
            ;
            if d >= 14 {
                lemma_pow16_mono(14, d as nat);
                assert(pow16(14) == 0x100_0000_0000_0000) by {
                    reveal_with_fuel(pow16, 15);
                }
            }
        }
        n = n * 16;
        d = d + 1;
    }
    proof {
        if d > 14 {
            lemma_pow16_mono(15, d as nat);
            assert(pow16(15) > 0x100_0000_0000_0000) by {
                reveal_with_fuel(pow16, 16);
            }
        }
    }
    (n, d)
}

/// The real at `bytes[s..s + 8]`, normalized.
#[verifier::rlimit(30)]
fn normalize_real8_at(bytes: &[u8], s: usize) -> (r: Vec<u8>)
    requires
        s + 8 <= bytes@.len(),
    ensures
        r@ == normalize_real8(bytes@.subrange(s as int, s + 8)),
{
    let ghost b = bytes@.subrange(s as int, s + 8);
    let len = bytes.len();
    assert(s + 8 <= len);
    let m: u64 = bytes[s + 1] as u64 * 0x1_0000_0000_0000 + bytes[s + 2] as u64 * 0x100_0000_0000
        + bytes[s + 3] as u64 * 0x1_0000_0000 + bytes[s + 4] as u64 * 0x100_0000 + bytes[s + 5] as u64
        * 0x1_0000 + bytes[s + 6] as u64 * 0x100 + bytes[s + 7] as u64;
    proof {
        assert(b[1] == bytes@[s + 1] && b[2] == bytes@[s + 2] && b[3] == bytes@[s + 3]);
        assert(b[4] == bytes@[s + 4] && b[5] == bytes@[s + 5] && b[6] == bytes@[s + 6]);
        assert(b[7] == bytes@[s + 7] && b[0] == bytes@[s as int]);
        assert(m as nat == real8_mantissa(b));
    }
    let z = vec![0u8, 0u8, 0u8, 0u8, 0u8, 0u8, 0u8, 0u8];
    proof {
        assert(z@ =~= real8_zero());
    }
    if m == 0 {
        return z;
    }
    let mr = round_mantissa_exec(m);
    let e: i64 = (bytes[s] % 128) as i64;
    let (n, k): (u64, i64) = if mr >= 0x100_0000_0000_0000 {
        (mr / 16, e + 1)
    } else {
        let (n1, d) = shift_up_exec(mr);
        (n1, e - d)
    };
    if k < 0 || k > 127 {
        return z;
    }
    let b0: u8 = (k as u8) + (bytes[s] / 128) * 128;
    let out = vec![
        b0,
        (n / 0x1_0000_0000_0000 % 256) as u8,
        (n / 0x100_0000_0000 % 256) as u8,
        (n / 0x1_0000_0000 % 256) as u8,
        (n / 0x100_0000 % 256) as u8,
        (n / 0x1_0000 % 256) as u8,
        (n / 0x100 % 256) as u8,
        (n % 256) as u8,
    ];
    proof {
        assert(out@ =~= normalize_real8(b));
    }
    out
}

/// The two reals of `UNITS` at `bytes[s..s + 16]`, normalized.
fn normalize_units_at(bytes: &[u8], s: usize) -> (r: Vec<u8>)
    requires
        s + 16 <= bytes@.len(),
    ensures
        r@ == normalize_units(bytes@.subrange(s as int, s + 16)),
        r@.len() == 16,
{
    reveal(normalize_units);
    let len = bytes.len();
    let mut a = normalize_real8_at(bytes, s);
    let b = normalize_real8_at(bytes, s + 8);
    let ghost av = a@;
    let mut i: usize = 0;
    while i < 8
        invariant
            i <= 8,
            b@.len() == 8,
            a@ == av + b@.take(i as int),
        decreases 8 - i,
    {
        a.push(b[i]);
        proof {
            assert(a@ =~= av + b@.take(i + 1));
        }
        i = i + 1;
    }
    proof {
        let u = bytes@.subrange(s as int, s + 16);
        assert(u.subrange(0, 8) =~= bytes@.subrange(s as int, s + 8));
        assert(u.subrange(8, 16) =~= bytes@.subrange(s + 8, s + 16));
        assert(b@.take(8) =~= b@);
    }
    a
}

/// The reader's state between records: the library so far, the open cell and
/// the element being assembled.
pub struct ReadState {
    pub gds: GdsModel,
    pub cur: Option<int>,
    pub pending: Option<ElementModel>,
}

/// The reader's state after one record (`ENDLIB` is handled by [`read_from`]).
pub open spec fn step(st: ReadState, r: Rec) -> Result<ReadState, GdsError> {
    let g = st.gds;
    if r.rtype == RT_LIBNAME {
        Ok(ReadState { gds: GdsModel { lib_name: ascii_text(r.data), ..g }, ..st })
    } else if r.rtype == RT_UNITS {
        if r.data.len() % 8 != 0 {
            Err(GdsError::BadPayload { rtype: r.rtype, len: r.data.len() as usize })
        } else if r.data.len() >= 16 {
            Ok(ReadState { gds: GdsModel { units: normalize_units(r.data.take(16)), ..g }, ..st })
        } else {
            Ok(st)
        }
    } else if r.rtype == RT_BGNSTR || r.rtype == RT_ENDSTR {
        Ok(ReadState { cur: None, ..st })
    } else if r.rtype == RT_STRNAME {
        if st.pending == Some(ElementModel::Sref) {
            Ok(st)
        } else {
            let name = ascii_text(r.data);
            let cells = with_cell(g.cells, name);
            Ok(ReadState { gds: GdsModel { cells, ..g }, cur: Some(cell_pos(cells, name)), ..st })
        }
    } else if r.rtype == RT_BOUNDARY {
        Ok(ReadState { pending: Some(ElementModel::Boundary { layer: 0, datatype: 0, xy: seq![] }), ..st })
    } else if r.rtype == RT_PATH {
        Ok(ReadState { pending: Some(ElementModel::Path), ..st })
    } else if r.rtype == RT_SREF {
        Ok(ReadState { pending: Some(ElementModel::Sref), ..st })
    } else if r.rtype == RT_LAYER || r.rtype == RT_DATATYPE {
        if r.data.len() % 2 != 0 {
            Err(GdsError::BadPayload { rtype: r.rtype, len: r.data.len() as usize })
        } else {
            let v = decode_i16s(r.data);
            match st.pending {
                Some(ElementModel::Boundary { layer, datatype, xy }) => {
                    if v.len() > 0 {
                        Ok(
                            ReadState {
                                pending: Some(
                                    ElementModel::Boundary {
                                        layer: if r.rtype == RT_LAYER { v[0] } else { layer },
                                        datatype: if r.rtype == RT_DATATYPE { v[0] } else { datatype },
                                        xy,
                                    },
                                ),
                                ..st
                            },
                        )
                    } else {
                        Ok(st)
                    }
                },
                _ => Ok(st),
            }
        }
    } else if r.rtype == RT_XY {
        if r.data.len() % 4 != 0 {
            Err(GdsError::BadPayload { rtype: r.rtype, len: r.data.len() as usize })
        } else {
            match st.pending {
                Some(ElementModel::Boundary { layer, datatype, xy }) => Ok(
                    ReadState {
                        pending: Some(ElementModel::Boundary { layer, datatype, xy: decode_i32s(r.data) }),
                        ..st
                    },
                ),
                _ => Ok(st),
            }
        }
    } else if r.rtype == RT_ENDEL {
        match st.pending {
            None => Ok(st),
            Some(e) => match st.cur {
                Some(i) => Ok(
                    ReadState { gds: GdsModel { cells: with_element(g.cells, i, e), ..g }, pending: None, ..st },
                ),
                None => {
                    let cells = with_cell(g.cells, orphan_name(g.cells.len()));
                    Ok(
                        ReadState {
                            gds: GdsModel { cells: with_element(cells, cells.len() - 1, e), ..g },
                            pending: None,
                            ..st
                        },
                    )
                },
            },
        }
    } else {
        Ok(st)
    }
}

/// The library read from the records starting at `pos`, up to `ENDLIB` or the
/// end of the stream.
pub open spec fn read_from(b: Seq<u8>, pos: int, st: ReadState) -> Result<GdsModel, GdsError>
    decreases b.len() - pos,
{
    if pos < 0 || pos > b.len() {
        Ok(st.gds)
    } else {
        match next_rec(b, pos) {
            Err(e) => Err(e),
            Ok(None) => Ok(st.gds),
            Ok(Some((r, next))) => {
                if r.rtype == RT_ENDLIB || next <= pos {
                    Ok(st.gds)
                } else {
                    match step(st, r) {
                        Err(e) => Err(e),
                        Ok(st2) => read_from(b, next, st2),
                    }
                }
            },
        }
    }
}

/// The reader's state before the first record after `HEADER`.
pub open spec fn initial_read_state() -> ReadState {
    ReadState {
        gds: GdsModel { lib_name: seq![], units: default_units(), cells: seq![] },
        cur: None,
        pending: None,
    }
}

/// The library a GDSII stream holds, or the error that stops reading it: the
/// stream must start with a `HEADER` record.
pub open spec fn spec_read(b: Seq<u8>) -> Result<GdsModel, GdsError> {
    match next_rec(b, 0) {
        Err(e) => Err(e),
        Ok(None) => Err(GdsError::MissingHeader),
        Ok(Some((r, next))) => {
            if r.rtype != RT_HEADER {
                Err(GdsError::MissingHeader)
            } else {
                read_from(b, next, initial_read_state())
            }
        },
    }
}

fn next_record(bytes: &[u8], pos: usize) -> (r: Result<Option<(u8, u8, usize, usize)>, GdsError>)
    requires
        pos <= bytes@.len(),
    ensures
        match (r, next_rec(bytes@, pos as int)) {
            (Err(e1), Err(e2)) => e1 == e2,
            (Ok(None), Ok(None)) => true,
            (Ok(Some((rt, dt, s, en))), Ok(Some((rec, e)))) => {
                &&& rt == rec.rtype
                &&& dt == rec.dtype
                &&& s == pos + 4
                &&& en == e
                &&& s <= en <= bytes@.len()
                &&& rec.data == bytes@.subrange(s as int, en as int)
            },
            _ => false,
        },
{
    let remaining = bytes.len() - pos;
    if remaining == 0 {
        return Ok(None);
    }
    if remaining < 4 {
        return Err(GdsError::UnexpectedEof);
    }
    let len: usize = bytes[pos] as usize * 256 + bytes[pos + 1] as usize;
    if len < 4 || len > remaining {
        return Err(GdsError::BadRecordLength { offset: pos, len });
    }
    Ok(Some((bytes[pos + 2], bytes[pos + 3], pos + 4, pos + len)))
}

fn parse_ascii(bytes: &[u8], start: usize, end: usize) -> (s: String)
    requires
        start <= end <= bytes@.len(),
    ensures
        s@ == ascii_text(bytes@.subrange(start as int, end as int)),
{
    let ghost d = bytes@.subrange(start as int, end as int);
    let mut v: Vec<char> = Vec::new();
    let mut i: usize = start;
    while i < end && bytes[i] != 0
        invariant
            start <= i <= end <= bytes@.len(),
            d == bytes@.subrange(start as int, end as int),
            nul_from(d, (i - start) as int) == nul_from(d, 0),
            v@.len() == i - start,
            forall|k: int| 0 <= k < v@.len() ==> v@[k] == (d[k] as char),
        decreases end - i,
    {
        v.push(bytes[i] as char);
        i = i + 1;
    }
    proof {
        assert(nul_from(d, (i - start) as int) == (i - start));
        assert(v@ =~= ascii_text(d));
    }
    string_of(&v)
}

fn parse_int2(bytes: &[u8], start: usize, end: usize) -> (v: Vec<i16>)
    requires
        start <= end <= bytes@.len(),
        (end - start) % 2 == 0,
    ensures
        v@ == decode_i16s(bytes@.subrange(start as int, end as int)),
{
    let ghost d = bytes@.subrange(start as int, end as int);
    let mut v: Vec<i16> = Vec::new();
    let mut p: usize = start;
    while p < end
        invariant
            start <= p <= end <= bytes@.len(),
            (end - start) % 2 == 0,
            (p - start) % 2 == 0,
            d == bytes@.subrange(start as int, end as int),
            v@.len() == (p - start) / 2,
            forall|k: int| 0 <= k < v@.len() ==> v@[k] == i16_of(d[2 * k], d[2 * k + 1]),
        decreases end - p,
    {
        let u: i32 = bytes[p] as i32 * 256 + bytes[p + 1] as i32;
        let x: i16 = if u >= 32768 {
            (u - 65536) as i16
        } else {
            u as i16
        };
        proof {
            let k = v@.len() as int;
            assert(2 * k == p - start);
            assert(x == i16_of(d[2 * k], d[2 * k + 1]));
        }
        v.push(x);
        p = p + 2;
    }
    proof {
        assert(v@ =~= decode_i16s(d));
    }
    v
}

fn parse_int4(bytes: &[u8], start: usize, end: usize) -> (v: Vec<i32>)
    requires
        start <= end <= bytes@.len(),
        (end - start) % 4 == 0,
    ensures
        v@ == decode_i32s(bytes@.subrange(start as int, end as int)),
{
    let ghost d = bytes@.subrange(start as int, end as int);
    let mut v: Vec<i32> = Vec::new();
    let mut p: usize = start;
    while p < end
        invariant
            start <= p <= end <= bytes@.len(),
            (end - start) % 4 == 0,
            (p - start) % 4 == 0,
            d == bytes@.subrange(start as int, end as int),
            v@.len() == (p - start) / 4,
            forall|k: int|
                0 <= k < v@.len() ==> v@[k] == i32_of(d[4 * k], d[4 * k + 1], d[4 * k + 2], d[4 * k + 3]),
        decreases end - p,
    {
        let u: i64 = bytes[p] as i64 * 16777216 + bytes[p + 1] as i64 * 65536 + bytes[p + 2] as i64 * 256
            + bytes[p + 3] as i64;
        let x: i32 = if u >= 2147483648 {
            (u - 4294967296) as i32
        } else {
            u as i32
        };
        proof {
            let k = v@.len() as int;
            assert(4 * k == p - start);
            assert(x == i32_of(d[4 * k], d[4 * k + 1], d[4 * k + 2], d[4 * k + 3]));
        }
        v.push(x);
        p = p + 4;
    }
    proof {
        assert(v@ =~= decode_i32s(d));
    }
    v
}

/// The views of an optional element.
spec fn pend_view(p: Option<Element>) -> Option<ElementModel> {
    match p {
        Some(e) => Some(e@),
        None => None,
    }
}

/// An optional cell position as an integer.
spec fn cur_view(c: Option<usize>) -> Option<int> {
    match c {
        Some(i) => Some(i as int),
        None => None,
    }
}

/// The reader's state held by a library, an open cell and a pending element.
spec fn state_of(g: GdsModel, cur: Option<usize>, pending: Option<Element>) -> ReadState {
    ReadState { gds: g, cur: cur_view(cur), pending: pend_view(pending) }
}

/// The open cell, if any, is one of the library's cells.
spec fn cur_ok(g: GdsModel, cur: Option<usize>) -> bool {
    cur.is_some() ==> cur.unwrap() < g.cells.len()
}

fn orphan_string(n: usize) -> (s: String)
    ensures
        s@ == orphan_name(n as nat),
{
    let mut s = String::from_str("$ORPHAN_");
    let d = digits_u64(n as u64);
    s.append(d.as_str());
    s
}

/// Apply the record `bytes[start..end]` of type `rtype` to the reader's state.
fn apply_record(
    gds: Gds,
    cur: Option<usize>,
    pending: Option<Element>,
    bytes: &[u8],
    rtype: u8,
    dtype: u8,
    start: usize,
    end: usize,
) -> (r: Result<(Gds, Option<usize>, Option<Element>), GdsError>)
    requires
        gds.wf(),
        cur_ok(gds@, cur),
        start <= end <= bytes@.len(),
    ensures
        match step(
            state_of(gds@, cur, pending),
            Rec { rtype, dtype, data: bytes@.subrange(start as int, end as int) },
        ) {
            Ok(st2) => match r {
                Ok((g2, c2, p2)) => g2.wf() && cur_ok(g2@, c2) && state_of(g2@, c2, p2) == st2,
                Err(_) => false,
            },
            Err(e) => match r {
                Ok(_) => false,
                Err(e2) => e2 == e,
            },
        },
{
    let ghost d = bytes@.subrange(start as int, end as int);
    let ghost st = state_of(gds@, cur, pending);
    let ghost rec = Rec { rtype, dtype, data: d };
    let mut gds = gds;
    let n = end - start;
    if rtype == RT_LIBNAME {
        gds.lib_name = parse_ascii(bytes, start, end);
        Ok((gds, cur, pending))
    } else if rtype == RT_UNITS {
        if n % 8 != 0 {
            return Err(GdsError::BadPayload { rtype, len: n });
        }
        if n >= 16 {
            gds.units = normalize_units_at(bytes, start);
            proof {
                assert(bytes@.subrange(start as int, start + 16) =~= d.take(16));
            }
        }
        Ok((gds, cur, pending))
    } else if rtype == RT_BGNSTR || rtype == RT_ENDSTR {
        Ok((gds, None, pending))
    } else if rtype == RT_STRNAME {
        if matches!(pending, Some(Element::Sref)) {
            Ok((gds, cur, pending))
        } else {
            proof {
                assert(pend_view(pending) != Some(ElementModel::Sref));
            }
            let name = parse_ascii(bytes, start, end);
            let key = name.clone();
            gds.add_cell_string(name);
            let c = gds.find_cell(&key);
            proof {
                lemma_with_cell(st.gds.cells, key@);
            }
            Ok((gds, c, pending))
        }
    } else if rtype == RT_BOUNDARY {
        let e = Element::Boundary { layer: 0, datatype: 0, xy: Vec::new() };
        proof {
            assert(e@ == ElementModel::Boundary { layer: 0, datatype: 0, xy: seq![] });
        }
        Ok((gds, cur, Some(e)))
    } else if rtype == RT_PATH {
        Ok((gds, cur, Some(Element::Path)))
    } else if rtype == RT_SREF {
        Ok((gds, cur, Some(Element::Sref)))
    } else if rtype == RT_LAYER || rtype == RT_DATATYPE {
        if n % 2 != 0 {
            return Err(GdsError::BadPayload { rtype, len: n });
        }
        let v = parse_int2(bytes, start, end);
        let p = match pending {
            Some(Element::Boundary { layer, datatype, xy }) => {
                if v.len() > 0 {
                    let l = if rtype == RT_LAYER {
                        v[0]
                    } else {
                        layer
                    };
                    let dt = if rtype == RT_DATATYPE {
                        v[0]
                    } else {
                        datatype
                    };
                    Some(Element::Boundary { layer: l, datatype: dt, xy })
                } else {
                    Some(Element::Boundary { layer, datatype, xy })
                }
            },
            other => other,
        };
        Ok((gds, cur, p))
    } else if rtype == RT_XY {
        if n % 4 != 0 {
            return Err(GdsError::BadPayload { rtype, len: n });
        }
        let v = parse_int4(bytes, start, end);
        let p = match pending {
            Some(Element::Boundary { layer, datatype, xy: _ }) => Some(
                Element::Boundary { layer, datatype, xy: v },
            ),
            other => other,
        };
        Ok((gds, cur, p))
    } else if rtype == RT_ENDEL {
        match pending {
            None => Ok((gds, cur, None)),
            Some(el) => {
                match cur {
                    Some(i) => {
                        gds.push_element(i, el);
                        Ok((gds, cur, None))
                    },
                    None => {
                        let anon = orphan_string(gds.cells.len());
                        proof {
                            lemma_with_cell(gds@.cells, anon@);
                        }
                        gds.add_cell_string(anon);
                        let idx = gds.cells.len() - 1;
                        gds.push_element(idx, el);
                        Ok((gds, None, None))
                    },
                }
            },
        }
    } else {
        Ok((gds, cur, pending))
    }
}

impl Gds {
    /// Parse a GDSII binary stream (see [`spec_read`]).
    ///
    /// Every element of the library read back can be written again, so it is
    /// writable whenever its names are (see [`names_writable`]).
    pub fn read(bytes: &[u8]) -> (r: Result<Gds, GdsError>)
        ensures
            match r {
                Ok(g) => g.wf() && spec_read(bytes@) == Ok::<GdsModel, GdsError>(g@) && (names_writable(g@)
                    ==> writable(g@)),
                Err(e) => spec_read(bytes@) == Err::<GdsModel, GdsError>(e),
            },
    {
        let r = Self::read_stream(bytes);
        proof {
            lemma_read_elements_writable(bytes@);
            if r is Ok {
                lemma_writable_parts(r->Ok_0@);
            }
        }
        r
    }

    /// The records of a stream, read into a library.
    fn read_stream(bytes: &[u8]) -> (r: Result<Gds, GdsError>)
        ensures
            match r {
                Ok(g) => g.wf() && spec_read(bytes@) == Ok::<GdsModel, GdsError>(g@),
                Err(e) => spec_read(bytes@) == Err::<GdsModel, GdsError>(e),
            },
    {
        let mut gds = Gds { lib_name: String::new(), units: default_units_vec(), cells: Vec::new() };
        proof {
            assert(gds@.cells =~= Seq::<CellModel>::empty());
            assert(gds@ == initial_read_state().gds);
        }
        let mut pos: usize = match next_record(bytes, 0) {
            Err(e) => {
                return Err(e);
            },
            Ok(None) => {
                return Err(GdsError::MissingHeader);
            },
            Ok(Some((rt, _dt, _s, e))) => {
                if rt != RT_HEADER {
                    return Err(GdsError::MissingHeader);
                }
                e
            },
        };
        let mut cur: Option<usize> = None;
        let mut pending: Option<Element> = None;
        loop
            invariant
                gds.wf(),
                cur_ok(gds@, cur),
                pos <= bytes@.len(),
                spec_read(bytes@) == read_from(bytes@, pos as int, state_of(gds@, cur, pending)),
            decreases bytes@.len() - pos,
        {
            match next_record(bytes, pos) {
                Err(e) => {
                    return Err(e);
                },
                Ok(None) => {
                    return Ok(gds);
                },
                Ok(Some((rt, dt, s, e))) => {
                    if rt == RT_ENDLIB {
                        return Ok(gds);
                    }
                    match apply_record(gds, cur, pending, bytes, rt, dt, s, e) {
                        Err(err) => {
                            return Err(err);
                        },
                        Ok((g2, c2, p2)) => {
                            gds = g2;
                            cur = c2;
                            pending = p2;
                        },
                    }
                    pos = e;
                },
            }
        }
    }
}

// ===========================================================================
// Reading back what was written
// ===========================================================================

/// Every record's total length fits its 16-bit length field.
pub open spec fn recs_short(rs: Seq<Rec>) -> bool {
    forall|i: int| 0 <= i < rs.len() ==> #[trigger] rs[i].data.len() <= 65531
}

/// The reader run over a list of records, stopping at `ENDLIB`.
pub open spec fn run(rs: Seq<Rec>, st: ReadState) -> Result<GdsModel, GdsError>
    decreases rs.len(),
{
    if rs.len() == 0 {
        Ok(st.gds)
    } else if rs[0].rtype == RT_ENDLIB {
        Ok(st.gds)
    } else {
        match step(st, rs[0]) {
            Err(e) => Err(e),
            Ok(st2) => run(rs.drop_first(), st2),
        }
    }
}

/// The record at the start of the encoding of a short record list is its
/// first record.
proof fn lemma_next_rec_enc(pre: Seq<u8>, rs: Seq<Rec>)
    requires
        rs.len() > 0,
        rs[0].data.len() <= 65531,
    ensures
        next_rec(pre + enc_all(rs), pre.len() as int) == Ok::<Option<(Rec, int)>, GdsError>(
            Some((rs[0], (pre + enc_rec(rs[0])).len() as int)),
        ),
        pre + enc_all(rs) == (pre + enc_rec(rs[0])) + enc_all(rs.drop_first()),
{
    let b = pre + enc_all(rs);
    let r = rs[0];
    let pos = pre.len() as int;
    let t = r.data.len() + 4;
    assert(t % 65536 == t);
    assert(enc_all(rs) == enc_rec(r) + enc_all(rs.drop_first()));
    assert(b =~= (pre + enc_rec(r)) + enc_all(rs.drop_first()));
    assert(b[pos] == (t / 256) as u8);
    assert(b[pos + 1] == (t % 256) as u8);
    assert(b[pos] as int * 256 + b[pos + 1] as int == t);
    assert(b[pos + 2] == r.rtype);
    assert(b[pos + 3] == r.dtype);
    assert(b.subrange(pos + 4, pos + t) =~= r.data);
}

/// Reading the encoding of a short record list runs the reader over it.
proof fn lemma_read_enc(pre: Seq<u8>, rs: Seq<Rec>, st: ReadState)
    requires
        recs_short(rs),
    ensures
        read_from(pre + enc_all(rs), pre.len() as int, st) == run(rs, st),
    decreases rs.len(),
{
    let b = pre + enc_all(rs);
    if rs.len() == 0 {
        assert(enc_all(rs) =~= Seq::<u8>::empty());
        assert(b =~= pre);
    } else {
        assert(rs[0].data.len() <= 65531);
        lemma_next_rec_enc(pre, rs);
        let pre2 = pre + enc_rec(rs[0]);
        if rs[0].rtype != RT_ENDLIB {
            match step(st, rs[0]) {
                Err(e) => {},
                Ok(st2) => {
                    assert forall|i: int| 0 <= i < rs.drop_first().len() implies #[trigger] rs.drop_first()[i].data.len()
                        <= 65531 by {
                        assert(rs.drop_first()[i] == rs[i + 1]);
                    }
                    lemma_read_enc(pre2, rs.drop_first(), st2);
                },
            }
        }
    }
}

/// The reader run over a list of records without stopping.
pub open spec fn steps(rs: Seq<Rec>, st: ReadState) -> Result<ReadState, GdsError>
    decreases rs.len(),
{
    if rs.len() == 0 {
        Ok(st)
    } else {
        match step(st, rs[0]) {
            Err(e) => Err(e),
            Ok(st2) => steps(rs.drop_first(), st2),
        }
    }
}

/// No record of the list is `ENDLIB`.
pub open spec fn no_endlib(rs: Seq<Rec>) -> bool {
    forall|i: int| 0 <= i < rs.len() ==> #[trigger] rs[i].rtype != RT_ENDLIB
}

/// Running over `a + b` runs over `a`, then over `b`.
proof fn lemma_steps_concat(a: Seq<Rec>, b: Seq<Rec>, st: ReadState)
    ensures
        steps(a + b, st) == match steps(a, st) {
            Ok(s) => steps(b, s),
            Err(e) => Err(e),
        },
    decreases a.len(),
{
    if a.len() == 0 {
        assert(a + b =~= b);
    } else {
        assert((a + b)[0] == a[0]);
        assert((a + b).drop_first() =~= a.drop_first() + b);
        match step(st, a[0]) {
            Err(e) => {},
            Ok(st2) => {
                lemma_steps_concat(a.drop_first(), b, st2);
            },
        }
    }
}

/// Without `ENDLIB` in `a`, the run over `a + b` continues over `b` from
/// where `a` left off.
proof fn lemma_run_concat(a: Seq<Rec>, b: Seq<Rec>, st: ReadState)
    requires
        no_endlib(a),
    ensures
        run(a + b, st) == match steps(a, st) {
            Ok(s) => run(b, s),
            Err(e) => Err(e),
        },
    decreases a.len(),
{
    if a.len() == 0 {
        assert(a + b =~= b);
    } else {
        assert((a + b)[0] == a[0]);
        assert(a[0].rtype != RT_ENDLIB);
        assert((a + b).drop_first() =~= a.drop_first() + b);
        match step(st, a[0]) {
            Err(e) => {},
            Ok(st2) => {
                assert forall|i: int| 0 <= i < a.drop_first().len() implies #[trigger] a.drop_first()[i].rtype
                    != RT_ENDLIB by {
                    assert(a.drop_first()[i] == a[i + 1]);
                }
                lemma_run_concat(a.drop_first(), b, st2);
            },
        }
    }
}

proof fn lemma_i16s_be_index(vs: Seq<i16>, k: int)
    requires
        0 <= k < vs.len(),
    ensures
        i16s_be(vs).len() == 2 * vs.len(),
        i16s_be(vs)[2 * k] == i16_be(vs[k])[0],
        i16s_be(vs)[2 * k + 1] == i16_be(vs[k])[1],
    decreases vs.len(),
{
    lemma_i16s_be_len(vs);
    lemma_i16s_be_len(vs.drop_last());
    if k < vs.len() - 1 {
        lemma_i16s_be_index(vs.drop_last(), k);
    }
}

proof fn lemma_i32s_be_index(vs: Seq<i32>, k: int)
    requires
        0 <= k < vs.len(),
    ensures
        i32s_be(vs).len() == 4 * vs.len(),
        i32s_be(vs)[4 * k] == i32_be(vs[k])[0],
        i32s_be(vs)[4 * k + 1] == i32_be(vs[k])[1],
        i32s_be(vs)[4 * k + 2] == i32_be(vs[k])[2],
        i32s_be(vs)[4 * k + 3] == i32_be(vs[k])[3],
    decreases vs.len(),
{
    lemma_i32s_be_len(vs);
    lemma_i32s_be_len(vs.drop_last());
    if k < vs.len() - 1 {
        lemma_i32s_be_index(vs.drop_last(), k);
    }
}

/// INT2 payloads decode to the values written.
pub proof fn lemma_decode_i16s(vs: Seq<i16>)
    ensures
        decode_i16s(i16s_be(vs)) == vs,
{
    lemma_i16s_be_len(vs);
    let d = i16s_be(vs);
    assert forall|k: int| 0 <= k < vs.len() implies #[trigger] decode_i16s(d)[k] == vs[k] by {
        lemma_i16s_be_index(vs, k);
        let v = vs[k];
        let u = u16_of(v);
        assert(0 <= u < 65536);
        assert(d[2 * k] as int == u / 256);
        assert(d[2 * k + 1] as int == u % 256);
        assert(d[2 * k] as int * 256 + d[2 * k + 1] as int == u);
    }
    assert(decode_i16s(d) =~= vs);
}

/// INT4 payloads decode to the values written.
pub proof fn lemma_decode_i32s(vs: Seq<i32>)
    ensures
        decode_i32s(i32s_be(vs)) == vs,
{
    lemma_i32s_be_len(vs);
    let d = i32s_be(vs);
    assert forall|k: int| 0 <= k < vs.len() implies #[trigger] decode_i32s(d)[k] == vs[k] by {
        lemma_i32s_be_index(vs, k);
        let v = vs[k];
        let u = u32_of(v);
        assert(0 <= u < 4294967296);
        assert(d[4 * k] as int == u / 16777216);
        assert(d[4 * k + 1] as int == u / 65536 % 256);
        assert(d[4 * k + 2] as int == u / 256 % 256);
        assert(d[4 * k + 3] as int == u % 256);
        assert(d[4 * k] as int * 16777216 + d[4 * k + 1] as int * 65536 + d[4 * k + 2] as int * 256
            + d[4 * k + 3] as int == u);
    }
    assert(decode_i32s(d) =~= vs);
}

/// A name that survives an ASCII record: ASCII, without NUL, and short
/// enough for its record's length field.
pub open spec fn text_writable(s: Seq<char>) -> bool {
    &&& vstd::utf8::is_ascii_chars(s)
    &&& forall|i: int| 0 <= i < s.len() ==> s[i] != '\0'
    &&& s.len() <= 65530
}

proof fn lemma_nul_from(d: Seq<u8>, n: int, i: int)
    requires
        0 <= i <= n <= d.len(),
        forall|j: int| 0 <= j < n ==> d[j] != 0,
        n == d.len() || d[n] == 0,
    ensures
        nul_from(d, i) == n,
    decreases n - i,
{
    if i < n {
        lemma_nul_from(d, n, i + 1);
    }
}

/// An ASCII payload reads back as its text.
pub proof fn lemma_ascii_text(s: Seq<char>)
    requires
        text_writable(s),
    ensures
        ascii_text(ascii_payload(s)) == s,
        ascii_payload(s).len() <= 65531,
{
    let b = vstd::utf8::encode_utf8(s);
    vstd::utf8::is_ascii_chars_encode_utf8(s);
    let d = ascii_payload(s);
    let n = s.len() as int;
    assert forall|j: int| 0 <= j < n implies d[j] != 0 && (d[j] as char) == s[j] by {
        assert(d[j] == b[j]);
        assert('\0' <= s[j] <= '\u{7f}');
        assert(s[j] as u8 == b[j]);
        assert(s[j] != '\0');
    }
    lemma_nul_from(d, n, 0);
    assert(ascii_text(d) =~= s);
}

/// An element whose records fit their length fields.
pub open spec fn element_writable(e: ElementModel) -> bool {
    match e {
        ElementModel::Boundary { xy, .. } => xy.len() <= 16382,
        _ => true,
    }
}

/// Reading an element's records inside the last cell appends it there.
proof fn lemma_steps_element(d: Seq<CellModel>, name: Seq<char>, done: Seq<ElementModel>, e: ElementModel, g: GdsModel)
    requires
        element_writable(e),
        g.cells == d.push(CellModel { name, elements: done }),
    ensures
        steps(elem_recs(e), ReadState { gds: g, cur: Some(d.len() as int), pending: None }) == Ok::<
            ReadState,
            GdsError,
        >(
            ReadState {
                gds: GdsModel { cells: d.push(CellModel { name, elements: done.push(e) }), ..g },
                cur: Some(d.len() as int),
                pending: None,
            },
        ),
{
    let st0 = ReadState { gds: g, cur: Some(d.len() as int), pending: None };
    let fin = ReadState {
        gds: GdsModel { cells: d.push(CellModel { name, elements: done.push(e) }), ..g },
        cur: Some(d.len() as int),
        pending: None,
    };
    let rs = elem_recs(e);
    assert(with_element(g.cells, d.len() as int, e) =~= fin.gds.cells);
    lemma_i16s_be_len(seq![0i16]);
    lemma_i32s_be_len(seq![0i32, 0i32]);
    match e {
        ElementModel::Boundary { layer, datatype, xy } => {
            lemma_decode_i16s(seq![layer]);
            lemma_decode_i16s(seq![datatype]);
            lemma_decode_i32s(xy);
            lemma_i16s_be_len(seq![layer]);
            lemma_i16s_be_len(seq![datatype]);
            lemma_i32s_be_len(xy);
            let s1 = ReadState {
                pending: Some(ElementModel::Boundary { layer: 0, datatype: 0, xy: seq![] }),
                ..st0
            };
            let s2 = ReadState { pending: Some(ElementModel::Boundary { layer, datatype: 0, xy: seq![] }), ..st0 };
            let s3 = ReadState { pending: Some(ElementModel::Boundary { layer, datatype, xy: seq![] }), ..st0 };
            let s4 = ReadState { pending: Some(ElementModel::Boundary { layer, datatype, xy }), ..st0 };
            assert(step(st0, rs[0]) == Ok::<ReadState, GdsError>(s1));
            assert(step(s1, rs[1]) == Ok::<ReadState, GdsError>(s2));
            assert(step(s2, rs[2]) == Ok::<ReadState, GdsError>(s3));
            assert(step(s3, rs[3]) == Ok::<ReadState, GdsError>(s4));
            assert(step(s4, rs[4]) == Ok::<ReadState, GdsError>(fin));
            assert(rs.drop_first().drop_first().drop_first().drop_first().drop_first() =~= Seq::<Rec>::empty());
            reveal_with_fuel(steps, 6);
        },
        ElementModel::Path => {
            let s1 = ReadState { pending: Some(ElementModel::Path), ..st0 };
            assert(step(st0, rs[0]) == Ok::<ReadState, GdsError>(s1));
            assert(step(s1, rs[1]) == Ok::<ReadState, GdsError>(s1));
            assert(step(s1, rs[2]) == Ok::<ReadState, GdsError>(s1));
            assert(step(s1, rs[3]) == Ok::<ReadState, GdsError>(s1));
            assert(step(s1, rs[4]) == Ok::<ReadState, GdsError>(fin));
            assert(rs.drop_first().drop_first().drop_first().drop_first().drop_first() =~= Seq::<Rec>::empty());
            reveal_with_fuel(steps, 6);
        },
        ElementModel::Sref => {
            let s1 = ReadState { pending: Some(ElementModel::Sref), ..st0 };
            assert(step(st0, rs[0]) == Ok::<ReadState, GdsError>(s1));
            assert(step(s1, rs[1]) == Ok::<ReadState, GdsError>(s1));
            assert(step(s1, rs[2]) == Ok::<ReadState, GdsError>(s1));
            assert(step(s1, rs[3]) == Ok::<ReadState, GdsError>(fin));
            assert(rs.drop_first().drop_first().drop_first().drop_first() =~= Seq::<Rec>::empty());
            reveal_with_fuel(steps, 5);
        },
    }
}

/// Every element of the list is writable.
pub open spec fn elements_writable(es: Seq<ElementModel>) -> bool {
    forall|j: int| 0 <= j < es.len() ==> element_writable(#[trigger] es[j])
}

/// Reading a list of elements' records inside the last cell appends them.
proof fn lemma_steps_elements(d: Seq<CellModel>, name: Seq<char>, done: Seq<ElementModel>, es: Seq<ElementModel>, g: GdsModel)
    requires
        elements_writable(es),
        g.cells == d.push(CellModel { name, elements: done }),
    ensures
        steps(elems_recs(es), ReadState { gds: g, cur: Some(d.len() as int), pending: None }) == Ok::<
            ReadState,
            GdsError,
        >(
            ReadState {
                gds: GdsModel { cells: d.push(CellModel { name, elements: done + es }), ..g },
                cur: Some(d.len() as int),
                pending: None,
            },
        ),
    decreases es.len(),
{
    let st0 = ReadState { gds: g, cur: Some(d.len() as int), pending: None };
    if es.len() == 0 {
        assert(done + es =~= done);
        assert(elems_recs(es) =~= Seq::<Rec>::empty());
        assert(g =~= GdsModel { cells: d.push(CellModel { name, elements: done + es }), ..g });
    } else {
        let front = es.drop_last();
        assert forall|j: int| 0 <= j < front.len() implies element_writable(#[trigger] front[j]) by {
            assert(front[j] == es[j]);
        }
        lemma_steps_elements(d, name, done, front, g);
        lemma_steps_concat(elems_recs(front), elem_recs(es.last()), st0);
        let mid = ReadState {
            gds: GdsModel { cells: d.push(CellModel { name, elements: done + front }), ..g },
            cur: Some(d.len() as int),
            pending: None,
        };
        assert(element_writable(es[es.len() - 1]));
        lemma_steps_element(d, name, done + front, es.last(), mid.gds);
        assert((done + front).push(es.last()) =~= done + es);
    }
}

/// Every cell name is writable and every element too.
pub open spec fn cells_writable(cs: Seq<CellModel>) -> bool {
    forall|i: int|
        0 <= i < cs.len() ==> text_writable(#[trigger] cs[i].name) && elements_writable(cs[i].elements)
}

/// Reading a list of cells' records appends the cells.
proof fn lemma_steps_cells(d: Seq<CellModel>, cs: Seq<CellModel>, g: GdsModel)
    requires
        cells_writable(cs),
        names_distinct(d + cs),
        g.cells == d,
    ensures
        steps(cells_recs(cs), ReadState { gds: g, cur: None, pending: None }) == Ok::<ReadState, GdsError>(
            ReadState { gds: GdsModel { cells: d + cs, ..g }, cur: None, pending: None },
        ),
    decreases cs.len(),
{
    let st0 = ReadState { gds: g, cur: None, pending: None };
    if cs.len() == 0 {
        assert(d + cs =~= d);
        assert(cells_recs(cs) =~= Seq::<Rec>::empty());
        assert(g =~= GdsModel { cells: d + cs, ..g });
    } else {
        let front = cs.drop_last();
        let c = cs.last();
        assert forall|i: int| 0 <= i < front.len() implies text_writable(#[trigger] front[i].name)
            && elements_writable(front[i].elements) by {
            assert(front[i] == cs[i]);
        }
        assert(d + cs =~= (d + front).push(c));
        assert(names_distinct(d + front)) by {
            assert forall|i: int, j: int| 0 <= i < j < (d + front).len() implies (d + front)[i].name != (d
                + front)[j].name by {
                assert((d + front)[i] == (d + cs)[i]);
                assert((d + front)[j] == (d + cs)[j]);
            }
        }
        lemma_steps_cells(d, front, g);
        let mid_g = GdsModel { cells: d + front, ..g };
        let mid = ReadState { gds: mid_g, cur: None, pending: None };
        assert(cells_recs(cs) == cells_recs(front) + cell_recs(c));
        lemma_steps_concat(cells_recs(front), cell_recs(c), st0);
        // The records of the last cell.
        assert(text_writable(cs[cs.len() - 1].name) && elements_writable(cs[cs.len() - 1].elements));
        lemma_ascii_text(c.name);
        let dd = d + front;
        assert(!has_cell(dd, c.name)) by {
            if has_cell(dd, c.name) {
                let k = choose|k: int| 0 <= k < dd.len() && dd[k].name == c.name;
                assert((d + cs)[k] == dd[k]);
                assert((d + cs)[dd.len() as int] == c);
            }
        }
        lemma_with_cell(dd, c.name);
        let opened = with_cell(dd, c.name);
        assert(opened == dd.push(CellModel { name: c.name, elements: seq![] }));
        let s1 = mid;
        let s2 = ReadState { gds: GdsModel { cells: opened, ..mid_g }, cur: Some(dd.len() as int), pending: None };
        let head = seq![int2_rec(RT_BGNSTR, zero_stamps()), ascii_rec(RT_STRNAME, c.name)];
        assert(step(mid, head[0]) == Ok::<ReadState, GdsError>(s1));
        assert(step(s1, head[1]) == Ok::<ReadState, GdsError>(s2));
        assert(head.drop_first().drop_first() =~= Seq::<Rec>::empty());
        reveal_with_fuel(steps, 3);
        assert(steps(head, mid) == Ok::<ReadState, GdsError>(s2));
        lemma_steps_elements(dd, c.name, seq![], c.elements, s2.gds);
        let s3 = ReadState {
            gds: GdsModel { cells: dd.push(CellModel { name: c.name, elements: seq![] + c.elements }), ..mid_g },
            cur: Some(dd.len() as int),
            pending: None,
        };
        assert(seq![] + c.elements =~= c.elements);
        let fin = ReadState { gds: GdsModel { cells: d + cs, ..g }, cur: None, pending: None };
        assert(dd.push(CellModel { name: c.name, elements: c.elements }) == d + cs);
        let tail = seq![nodata_rec(RT_ENDSTR)];
        assert(step(s3, tail[0]) == Ok::<ReadState, GdsError>(fin));
        assert(tail.drop_first() =~= Seq::<Rec>::empty());
        assert(steps(tail, s3) == Ok::<ReadState, GdsError>(fin));
        assert(cell_recs(c) == head + elems_recs(c.elements) + tail);
        lemma_steps_concat(head, elems_recs(c.elements), mid);
        lemma_steps_concat(head + elems_recs(c.elements), tail, mid);
    }
}

/// Every record fits its length field and none is `ENDLIB`.
pub open spec fn recs_plain(rs: Seq<Rec>) -> bool {
    forall|i: int| 0 <= i < rs.len() ==> #[trigger] rs[i].data.len() <= 65531 && rs[i].rtype != RT_ENDLIB
}

proof fn lemma_plain_concat(a: Seq<Rec>, b: Seq<Rec>)
    requires
        recs_plain(a),
        recs_plain(b),
    ensures
        recs_plain(a + b),
{
    assert forall|i: int| 0 <= i < (a + b).len() implies #[trigger] (a + b)[i].data.len() <= 65531 && (a
        + b)[i].rtype != RT_ENDLIB by {
        if i < a.len() {
            assert((a + b)[i] == a[i]);
            assert(a[i].data.len() <= 65531 && a[i].rtype != RT_ENDLIB);
        } else {
            let k = i - a.len();
            assert((a + b)[i] == b[k]);
            assert(b[k].data.len() <= 65531 && b[k].rtype != RT_ENDLIB);
        }
    }
}

proof fn lemma_plain_elements(es: Seq<ElementModel>)
    requires
        elements_writable(es),
    ensures
        recs_plain(elems_recs(es)),
    decreases es.len(),
{
    if es.len() > 0 {
        let front = es.drop_last();
        assert forall|j: int| 0 <= j < front.len() implies element_writable(#[trigger] front[j]) by {
            assert(front[j] == es[j]);
        }
        lemma_plain_elements(front);
        let e = es.last();
        assert(element_writable(es[es.len() - 1]));
        lemma_i16s_be_len(seq![0i16]);
        lemma_i32s_be_len(seq![0i32, 0i32]);
        match e {
            ElementModel::Boundary { layer, datatype, xy } => {
                lemma_i16s_be_len(seq![layer]);
                lemma_i16s_be_len(seq![datatype]);
                lemma_i32s_be_len(xy);
            },
            _ => {},
        }
        reveal_strlit("");
        assert(ascii_payload(seq![]).len() == 0) by {
            assert(vstd::utf8::encode_utf8(Seq::<char>::empty()) =~= Seq::<u8>::empty());
        }
        assert(recs_plain(elem_recs(e)));
        lemma_plain_concat(elems_recs(front), elem_recs(e));
    }
}

proof fn lemma_plain_cell(c: CellModel)
    requires
        text_writable(c.name),
        elements_writable(c.elements),
    ensures
        recs_plain(cell_recs(c)),
{
    lemma_ascii_text(c.name);
    lemma_i16s_be_len(zero_stamps());
    let head = seq![int2_rec(RT_BGNSTR, zero_stamps()), ascii_rec(RT_STRNAME, c.name)];
    let tail = seq![nodata_rec(RT_ENDSTR)];
    assert(recs_plain(head));
    assert(recs_plain(tail));
    lemma_plain_elements(c.elements);
    lemma_plain_concat(head, elems_recs(c.elements));
    lemma_plain_concat(head + elems_recs(c.elements), tail);
}

proof fn lemma_plain_cells(cs: Seq<CellModel>)
    requires
        cells_writable(cs),
    ensures
        recs_plain(cells_recs(cs)),
    decreases cs.len(),
{
    if cs.len() > 0 {
        let front = cs.drop_last();
        assert forall|i: int| 0 <= i < front.len() implies text_writable(#[trigger] front[i].name)
            && elements_writable(front[i].elements) by {
            assert(front[i] == cs[i]);
        }
        lemma_plain_cells(front);
        let k = cs.len() - 1;
        assert(text_writable(cs[k].name));
        lemma_plain_cell(cs[k]);
        lemma_plain_concat(cells_recs(front), cell_recs(cs.last()));
    }
}

/// A library whose names and elements all survive being written.
pub open spec fn writable(m: GdsModel) -> bool {
    &&& text_writable(m.lib_name)
    &&& cells_writable(m.cells)
}

/// The reader's state after `BGNLIB`, `LIBNAME` and `UNITS`.
spec fn after_head(m: GdsModel) -> ReadState {
    ReadState { gds: GdsModel { lib_name: m.lib_name, units: normalize_units(m.units), cells: seq![] }, cur: None, pending: None }
}

proof fn lemma_steps_head(m: GdsModel)
    requires
        model_wf(m),
        text_writable(m.lib_name),
    ensures
        steps(lib_head_recs(m).drop_first(), initial_read_state()) == Ok::<ReadState, GdsError>(after_head(m)),
        recs_plain(lib_head_recs(m).drop_first()),
        recs_short(lib_head_recs(m)),
{
    let head3 = lib_head_recs(m).drop_first();
    let st0 = initial_read_state();
    lemma_i16s_be_len(seq![600i16]);
    lemma_i16s_be_len(zero_stamps());
    lemma_ascii_text(m.lib_name);
    let s_name = ReadState { gds: GdsModel { lib_name: m.lib_name, ..st0.gds }, ..st0 };
    assert(step(st0, head3[0]) == Ok::<ReadState, GdsError>(st0));
    assert(step(st0, head3[1]) == Ok::<ReadState, GdsError>(s_name));
    assert(m.units.take(16) =~= m.units);
    assert(step(s_name, head3[2]) == Ok::<ReadState, GdsError>(after_head(m)));
    assert(head3.drop_first().drop_first().drop_first() =~= Seq::<Rec>::empty());
    reveal_with_fuel(steps, 4);
}

/// The stream of a library read from its start: the records after `HEADER`.
proof fn lemma_read_stream(m: GdsModel)
    requires
        recs_short(gds_recs(m).drop_first()),
        gds_recs(m)[0].data.len() <= 65531,
    ensures
        spec_read(spec_write(m)) == run(gds_recs(m).drop_first(), initial_read_state()),
{
    let rs = gds_recs(m);
    let pre = Seq::<u8>::empty() + enc_rec(rs[0]);
    lemma_next_rec_enc(seq![], rs);
    assert(Seq::<u8>::empty() + enc_all(rs) =~= enc_all(rs));
    lemma_read_enc(pre, rs.drop_first(), initial_read_state());
}

/// The records after `HEADER` rebuild the library.
proof fn lemma_run_rest(m: GdsModel)
    requires
        model_wf(m),
        writable(m),
    ensures
        run(gds_recs(m).drop_first(), initial_read_state()) == Ok::<GdsModel, GdsError>(as_read(m)),
        recs_short(gds_recs(m).drop_first()),
{
    let rs = gds_recs(m);
    let head3 = lib_head_recs(m).drop_first();
    let cells = cells_recs(m.cells);
    let end = seq![nodata_rec(RT_ENDLIB)];
    let rest = rs.drop_first();
    lemma_steps_head(m);
    lemma_plain_cells(m.cells);
    lemma_plain_concat(head3, cells);
    assert(rest =~= head3 + cells + end);
    assert forall|i: int| 0 <= i < rest.len() implies #[trigger] rest[i].data.len() <= 65531 by {
        if i < (head3 + cells).len() {
            assert(rest[i] == (head3 + cells)[i]);
        }
    }
    assert(no_endlib(head3 + cells)) by {
        assert forall|i: int| 0 <= i < (head3 + cells).len() implies #[trigger] (head3 + cells)[i].rtype
            != RT_ENDLIB by {
            assert((head3 + cells)[i].data.len() <= 65531);
        }
    }
    lemma_run_concat(head3 + cells, end, initial_read_state());
    lemma_steps_concat(head3, cells, initial_read_state());
    assert(Seq::<CellModel>::empty() + m.cells =~= m.cells);
    lemma_steps_cells(seq![], m.cells, after_head(m).gds);
    let fin = ReadState { gds: GdsModel { cells: seq![] + m.cells, ..after_head(m).gds }, cur: None, pending: None };
    assert(fin.gds =~= as_read(m));
    assert(run(end, fin) == Ok::<GdsModel, GdsError>(as_read(m)));
}

/// Reading the stream [`Gds::write`] produces gives the library back: same
/// name, the same `UNITS` once normalized as the reader keeps them, same
/// cells with the same elements in the same order. It holds for every
/// well-formed library whose names are ASCII without NUL and whose records fit
/// their 16-bit length fields.
pub proof fn lemma_read_write(m: GdsModel)
    requires
        model_wf(m),
        writable(m),
    ensures
        spec_read(spec_write(m)) == Ok::<GdsModel, GdsError>(as_read(m)),
{
    lemma_run_rest(m);
    lemma_steps_head(m);
    assert(gds_recs(m)[0] == lib_head_recs(m)[0]);
    lemma_read_stream(m);
}

// ===========================================================================
// Which libraries can be written
// ===========================================================================

/// The library and cell names survive being written: ASCII, no NUL, at most
/// 65530 characters.
pub open spec fn names_writable(m: GdsModel) -> bool {
    &&& text_writable(m.lib_name)
    &&& forall|i: int| 0 <= i < m.cells.len() ==> text_writable(#[trigger] m.cells[i].name)
}

/// Every element of every cell survives being written.
pub open spec fn cells_elements_writable(cs: Seq<CellModel>) -> bool {
    forall|i: int| 0 <= i < cs.len() ==> elements_writable(#[trigger] cs[i].elements)
}

/// A library is writable exactly when its names are and its elements are.
pub proof fn lemma_writable_parts(m: GdsModel)
    ensures
        writable(m) <==> names_writable(m) && cells_elements_writable(m.cells),
{
    if names_writable(m) && cells_elements_writable(m.cells) {
        assert forall|i: int| 0 <= i < m.cells.len() implies text_writable(#[trigger] m.cells[i].name)
            && elements_writable(m.cells[i].elements) by {}
    }
    if writable(m) {
        assert forall|i: int| 0 <= i < m.cells.len() implies text_writable(#[trigger] m.cells[i].name) by {
            assert(text_writable(m.cells[i].name) && elements_writable(m.cells[i].elements));
        }
        assert forall|i: int| 0 <= i < m.cells.len() implies elements_writable(#[trigger] m.cells[i].elements) by {
            assert(text_writable(m.cells[i].name) && elements_writable(m.cells[i].elements));
        }
    }
}

/// Adding a cell with a writable name keeps a library writable.
proof fn lemma_with_cell_writable(m: GdsModel, name: Seq<char>)
    requires
        model_wf(m),
        writable(m),
        text_writable(name),
    ensures
        writable(GdsModel { cells: with_cell(m.cells, name), ..m }),
{
    lemma_with_cell(m.cells, name);
    let c = with_cell(m.cells, name);
    assert forall|i: int| 0 <= i < c.len() implies text_writable(#[trigger] c[i].name)
        && elements_writable(c[i].elements) by {
        if i < m.cells.len() {
            assert(c[i] == m.cells[i]);
            assert(text_writable(m.cells[i].name) && elements_writable(m.cells[i].elements));
        }
    }
}

/// Appending a writable element to a cell keeps the elements writable.
proof fn lemma_with_element_writable(cells: Seq<CellModel>, i: int, e: ElementModel)
    requires
        0 <= i < cells.len(),
        cells_elements_writable(cells),
        element_writable(e),
    ensures
        cells_elements_writable(with_element(cells, i, e)),
{
    lemma_with_element(cells, i, e);
    let c = with_element(cells, i, e);
    assert forall|j: int| 0 <= j < c.len() implies elements_writable(#[trigger] c[j].elements) by {
        if j == i {
            let es = cells[i].elements.push(e);
            assert(c[j].elements == es);
            assert(elements_writable(cells[i].elements));
            assert forall|k: int| 0 <= k < es.len() implies element_writable(#[trigger] es[k]) by {
                if k < cells[i].elements.len() {
                    assert(es[k] == cells[i].elements[k]);
                }
            }
        } else {
            assert(c[j] == cells[j]);
        }
    }
}

/// Adding a rectangle to a cell with a writable name keeps a library writable.
proof fn lemma_add_rect_writable(m: GdsModel, cell: Seq<char>, e: ElementModel)
    requires
        model_wf(m),
        writable(m),
        text_writable(cell),
        element_writable(e),
    ensures
        writable(
            GdsModel {
                cells: with_element(with_cell(m.cells, cell), cell_pos(with_cell(m.cells, cell), cell), e),
                ..m
            },
        ),
{
    lemma_with_cell_writable(m, cell);
    lemma_with_cell(m.cells, cell);
    let m1 = GdsModel { cells: with_cell(m.cells, cell), ..m };
    lemma_writable_parts(m1);
    let p = cell_pos(m1.cells, cell);
    lemma_with_element_writable(m1.cells, p, e);
    lemma_with_element(m1.cells, p, e);
    let m2 = GdsModel { cells: with_element(m1.cells, p, e), ..m };
    assert forall|j: int| 0 <= j < m2.cells.len() implies text_writable(#[trigger] m2.cells[j].name) by {
        assert(m2.cells[j].name == m1.cells[j].name);
    }
    lemma_writable_parts(m2);
}

/// What the reader keeps true between records: distinct cell names, an open
/// cell that exists, writable elements and a writable pending element.
pub open spec fn read_inv(st: ReadState) -> bool {
    &&& names_distinct(st.gds.cells)
    &&& (st.cur matches Some(i) ==> 0 <= i < st.gds.cells.len())
    &&& cells_elements_writable(st.gds.cells)
    &&& (st.pending matches Some(e) ==> element_writable(e))
}

/// One record of at most 65531 payload bytes keeps [`read_inv`].
proof fn lemma_step_inv(st: ReadState, r: Rec)
    requires
        read_inv(st),
        r.data.len() <= 65531,
    ensures
        step(st, r) matches Ok(s2) ==> read_inv(s2),
{
    let g = st.gds;
    if r.rtype == RT_STRNAME && st.pending != Some(ElementModel::Sref) {
        let name = ascii_text(r.data);
        lemma_with_cell(g.cells, name);
        let c = with_cell(g.cells, name);
        assert forall|i: int| 0 <= i < c.len() implies elements_writable(#[trigger] c[i].elements) by {
            if i < g.cells.len() {
                assert(c[i] == g.cells[i]);
            } else {
                assert(c[i].elements =~= Seq::<ElementModel>::empty());
            }
        }
    } else if r.rtype == RT_XY && r.data.len() % 4 == 0 {
        assert(decode_i32s(r.data).len() <= 16382);
    } else if r.rtype == RT_ENDEL {
        match st.pending {
            None => {},
            Some(e) => match st.cur {
                Some(i) => {
                    lemma_with_element_writable(g.cells, i, e);
                    lemma_with_element(g.cells, i, e);
                },
                None => {
                    let on = orphan_name(g.cells.len());
                    lemma_with_cell(g.cells, on);
                    let c = with_cell(g.cells, on);
                    assert forall|i: int| 0 <= i < c.len() implies elements_writable(#[trigger] c[i].elements) by {
                        if i < g.cells.len() {
                            assert(c[i] == g.cells[i]);
                        } else {
                            assert(c[i].elements =~= Seq::<ElementModel>::empty());
                        }
                    }
                    lemma_with_element_writable(c, c.len() - 1, e);
                    lemma_with_element(c, c.len() - 1, e);
                },
            },
        }
    }
}

/// Reading from a state that keeps [`read_inv`] gives writable elements.
proof fn lemma_read_from_inv(b: Seq<u8>, pos: int, st: ReadState)
    requires
        read_inv(st),
    ensures
        read_from(b, pos, st) matches Ok(g) ==> cells_elements_writable(g.cells),
    decreases b.len() - pos,
{
    if 0 <= pos <= b.len() {
        match next_rec(b, pos) {
            Ok(Some((r, next))) => {
                if r.rtype != RT_ENDLIB && next > pos {
                    assert(b[pos] as int * 256 + b[pos + 1] as int <= 65535);
                    assert(r.data.len() <= 65531);
                    lemma_step_inv(st, r);
                    if let Ok(st2) = step(st, r) {
                        lemma_read_from_inv(b, next, st2);
                    }
                }
            },
            _ => {},
        }
    }
}

/// Every element of a library the reader returns survives being written.
pub proof fn lemma_read_elements_writable(b: Seq<u8>)
    ensures
        spec_read(b) matches Ok(g) ==> cells_elements_writable(g.cells),
{
    match next_rec(b, 0) {
        Ok(Some((r, next))) => {
            if r.rtype == RT_HEADER {
                lemma_read_from_inv(b, next, initial_read_state());
            }
        },
        _ => {},
    }
}


// ===========================================================================
// Libraries built by the public operations
// ===========================================================================

/// One building step: add the cell named `op.0` when `op.1` is `None`, or add
/// a rectangle `(layer, x, y, w, h)` to that cell (creating it if absent)
/// when it is `Some`, as [`Gds::add_cell`] and [`Gds::add_rect`] do.
pub open spec fn apply_op(m: GdsModel, op: (Seq<char>, Option<(i16, i32, i32, i32, i32)>)) -> GdsModel {
    match op.1 {
        None => GdsModel { cells: with_cell(m.cells, op.0), ..m },
        Some((layer, x, y, w, h)) => GdsModel {
            cells: with_element(
                with_cell(m.cells, op.0),
                cell_pos(with_cell(m.cells, op.0), op.0),
                ElementModel::Boundary { layer, datatype: 0, xy: rect_outline(x, y, w, h) },
            ),
            ..m
        },
    }
}

/// The library after the building steps `ops`, first to last.
pub open spec fn apply_ops(m: GdsModel, ops: Seq<(Seq<char>, Option<(i16, i32, i32, i32, i32)>)>) -> GdsModel
    decreases ops.len(),
{
    if ops.len() == 0 {
        m
    } else {
        apply_ops(apply_op(m, ops[0]), ops.drop_first())
    }
}

/// A building step that [`Gds::add_cell`] or [`Gds::add_rect`] accepts and
/// whose cell name survives being written.
pub open spec fn op_ok(op: (Seq<char>, Option<(i16, i32, i32, i32, i32)>)) -> bool {
    &&& text_writable(op.0)
    &&& (op.1 matches Some((layer, x, y, w, h)) ==> i32::MIN <= x + w <= i32::MAX && i32::MIN <= y + h
        <= i32::MAX)
}

proof fn lemma_apply_ops_writable(m: GdsModel, ops: Seq<(Seq<char>, Option<(i16, i32, i32, i32, i32)>)>)
    requires
        model_wf(m),
        writable(m),
        forall|k: int| 0 <= k < ops.len() ==> op_ok(#[trigger] ops[k]),
    ensures
        model_wf(apply_ops(m, ops)),
        writable(apply_ops(m, ops)),
        apply_ops(m, ops).units == m.units,
        apply_ops(m, ops).lib_name == m.lib_name,
    decreases ops.len(),
{
    if ops.len() > 0 {
        let op = ops[0];
        assert(op_ok(ops[0]));
        lemma_with_cell(m.cells, op.0);
        match op.1 {
            None => {
                lemma_with_cell_writable(m, op.0);
            },
            Some((layer, x, y, w, h)) => {
                let e = ElementModel::Boundary { layer, datatype: 0, xy: rect_outline(x, y, w, h) };
                lemma_add_rect_writable(m, op.0, e);
                let c = with_cell(m.cells, op.0);
                lemma_with_element(c, cell_pos(c, op.0), e);
            },
        }
        assert forall|k: int| 0 <= k < ops.drop_first().len() implies op_ok(#[trigger] ops.drop_first()[k]) by {
            assert(ops.drop_first()[k] == ops[k + 1]);
        }
        lemma_apply_ops_writable(apply_op(m, op), ops.drop_first());
    }
}

/// Every library built from [`Gds::new`] by [`Gds::add_cell`] and
/// [`Gds::add_rect`] steps, with names that are ASCII without NUL and at
/// most 65530 characters long, reads back as itself after it is written.
pub proof fn lemma_built_library_round_trips(
    name: Seq<char>,
    ops: Seq<(Seq<char>, Option<(i16, i32, i32, i32, i32)>)>,
)
    requires
        text_writable(name),
        forall|k: int| 0 <= k < ops.len() ==> op_ok(#[trigger] ops[k]),
    ensures
        spec_read(spec_write(apply_ops(GdsModel { lib_name: name, units: default_units(), cells: seq![] }, ops)))
            == Ok::<GdsModel, GdsError>(
            apply_ops(GdsModel { lib_name: name, units: default_units(), cells: seq![] }, ops),
        ),
{
    let m0 = GdsModel { lib_name: name, units: default_units(), cells: seq![] };
    assert(model_wf(m0));
    assert(writable(m0));
    lemma_apply_ops_writable(m0, ops);
    lemma_read_write(apply_ops(m0, ops));
    lemma_default_units_normalized();
    assert(as_read(apply_ops(m0, ops)) == apply_ops(m0, ops));
}

} // verus!
