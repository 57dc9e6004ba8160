//! The quickstart path: a `name x y` placement list, parsed and summarized by
//! its bounding box and half-perimeter wirelength.
use vstd::prelude::*;

use crate::geom::{max_int, min_int};
use crate::text::{
    chars_of, digits_u64, int_string, int_text, lines, nat_digits, parse_i64, spec_parse_i64,
    split_lines, split_tokens, string_of, tokens, trim, trimmed,
};

verus! {

/// One placed cell of the quickstart format.
#[derive(Debug, Clone, PartialEq, Eq)]
pub struct Cell {
    pub name: String,
    pub x: i64,
    pub y: i64,
}

impl View for Cell {
    type V = (Seq<char>, i64, i64);

    open spec fn view(&self) -> (Seq<char>, i64, i64) {
        (self.name@, self.x, self.y)
    }
}

/// The message for a malformed line: `line N: what`.
pub open spec fn line_error(lineno: nat, what: Seq<char>) -> Seq<char> {
    "line "@ + nat_digits(lineno) + ": "@ + what
}

/// What one line contributes: nothing for a blank or `#` comment line, else a
/// cell `name x y` (extra tokens ignored) or the error for the line.
pub open spec fn parse_cell_line(line: Seq<char>, lineno: nat) -> Option<
    Result<(Seq<char>, i64, i64), Seq<char>>,
> {
    let t = trim(line);
    if t.len() == 0 || t[0] == '#' {
        None
    } else {
        let toks = tokens(t);
        if toks.len() == 0 {
            Some(Err(line_error(lineno, "missing cell name"@)))
        } else if toks.len() < 2 || spec_parse_i64(toks[1]) is None {
            Some(Err(line_error(lineno, "missing or invalid x coordinate"@)))
        } else if toks.len() < 3 || spec_parse_i64(toks[2]) is None {
            Some(Err(line_error(lineno, "missing or invalid y coordinate"@)))
        } else {
            Some(Ok((toks[0], spec_parse_i64(toks[1])->0, spec_parse_i64(toks[2])->0)))
        }
    }
}

/// The cells of lines `k..` after the cells `acc`, or the first error.
pub open spec fn parse_cells_from(
    ls: Seq<Seq<char>>,
    k: int,
    acc: Seq<(Seq<char>, i64, i64)>,
) -> Result<Seq<(Seq<char>, i64, i64)>, Seq<char>>
    decreases ls.len() - k,
{
    if k < 0 || k >= ls.len() {
        Ok(acc)
    } else {
        match parse_cell_line(ls[k], (k + 1) as nat) {
            None => parse_cells_from(ls, k + 1, acc),
            Some(Err(e)) => Err(e),
            Some(Ok(c)) => parse_cells_from(ls, k + 1, acc.push(c)),
        }
    }
}

/// The cells of a quickstart list, or the message for its first bad line.
pub open spec fn spec_parse_cells(input: Seq<char>) -> Result<Seq<(Seq<char>, i64, i64)>, Seq<char>> {
    parse_cells_from(lines(input), 0, seq![])
}

/// The models of a list of cells.
pub open spec fn cell_views(v: Seq<Cell>) -> Seq<(Seq<char>, i64, i64)> {
    v.map_values(|c: Cell| c@)
}

/// Build `line N: what`.
fn line_message(lineno: usize, what: &str) -> (s: String)
    ensures
        s@ == line_error(lineno as nat, what@),
{
    let mut s = String::from_str("line ");
    let d = digits_u64(lineno as u64);
    s.append(d.as_str());
    s.append(": ");
    s.append(what);
    s
}

/// Parse the `name x y` list: blank lines and lines starting with `#` are
/// skipped; any other line must hold a name and two `i64` coordinates.
pub fn parse(input: &str) -> (r: Result<Vec<Cell>, String>)
    ensures
        match r {
            Ok(v) => spec_parse_cells(input@) == Ok::<Seq<(Seq<char>, i64, i64)>, Seq<char>>(
                cell_views(v@),
            ),
            Err(e) => spec_parse_cells(input@) == Err::<Seq<(Seq<char>, i64, i64)>, Seq<char>>(
                e@,
            ),
        },
{
    let chars = chars_of(input);
    let phys = split_lines(&chars);
    let ghost ls = phys@.map_values(|t: Vec<char>| t@);
    let mut cells: Vec<Cell> = Vec::new();
    proof {
        assert(cell_views(cells@) =~= seq![]);
    }
    let mut k: usize = 0;
    while k < phys.len()
        invariant
            ls == phys@.map_values(|t: Vec<char>| t@),
            ls == lines(input@),
            k <= phys@.len(),
            parse_cells_from(ls, k as int, cell_views(cells@)) == spec_parse_cells(input@),
        decreases phys@.len() - k,
    {
        let line = trimmed(&phys[k]);
        let lineno = k + 1;
        proof {
            assert(line@ == trim(ls[k as int]));
            reveal_strlit("line ");
            reveal_strlit(": ");
        }
        if line.len() == 0 || line[0] == '#' {
            k = k + 1;
            continue;
        }
        let toks = split_tokens(&line);
        if toks.len() == 0 {
            return Err(line_message(lineno, "missing cell name"));
        }
        let x = if toks.len() >= 2 {
            parse_i64(&toks[1])
        } else {
            None
        };
        let x = match x {
            Some(v) => v,
            None => {
                return Err(line_message(lineno, "missing or invalid x coordinate"));
            },
        };
        let y = if toks.len() >= 3 {
            parse_i64(&toks[2])
        } else {
            None
        };
        let y = match y {
            Some(v) => v,
            None => {
                return Err(line_message(lineno, "missing or invalid y coordinate"));
            },
        };
        let ghost before = cell_views(cells@);
        let c = Cell { name: string_of(&toks[0]), x, y };
        cells.push(c);
        proof {
            assert(cell_views(cells@) =~= before.push(c@));
        }
        k = k + 1;
    }
    Ok(cells)
}

/// The least of the first coordinates (`x` when `axis` is false, else `y`).
pub open spec fn min_coord(cs: Seq<(Seq<char>, i64, i64)>, axis: bool) -> int
    decreases cs.len(),
{
    let v = if axis {
        cs.last().2 as int
    } else {
        cs.last().1 as int
    };
    if cs.len() <= 1 {
        v
    } else {
        min_int(min_coord(cs.drop_last(), axis), v)
    }
}

/// The greatest coordinate along `x` (`axis` false) or `y` (`axis` true).
pub open spec fn max_coord(cs: Seq<(Seq<char>, i64, i64)>, axis: bool) -> int
    decreases cs.len(),
{
    let v = if axis {
        cs.last().2 as int
    } else {
        cs.last().1 as int
    };
    if cs.len() <= 1 {
        v
    } else {
        max_int(max_coord(cs.drop_last(), axis), v)
    }
}

/// The coordinate of cell `c` along `x` (`axis` false) or `y` (`axis` true).
pub open spec fn coord_of(c: (Seq<char>, i64, i64), axis: bool) -> int {
    if axis {
        c.2 as int
    } else {
        c.1 as int
    }
}

/// The bounding box of a non-empty cell list is tight: along each axis the
/// least and greatest coordinates bound every cell, and each is the
/// coordinate of some cell.
pub proof fn lemma_coord_bounds(cs: Seq<(Seq<char>, i64, i64)>, axis: bool)
    requires
        cs.len() > 0,
    ensures
        forall|i: int| 0 <= i < cs.len() ==> min_coord(cs, axis) <= #[trigger] coord_of(cs[i], axis) <= max_coord(cs, axis),
        exists|i: int| 0 <= i < cs.len() && #[trigger] coord_of(cs[i], axis) == min_coord(cs, axis),
        exists|i: int| 0 <= i < cs.len() && #[trigger] coord_of(cs[i], axis) == max_coord(cs, axis),
    decreases cs.len(),
{
    let last = cs.len() - 1;
    assert(coord_of(cs[last], axis) == coord_of(cs.last(), axis));
    if cs.len() > 1 {
        let front = cs.drop_last();
        lemma_coord_bounds(front, axis);
        assert forall|i: int| 0 <= i < cs.len() implies min_coord(cs, axis) <= #[trigger] coord_of(cs[i], axis)
            <= max_coord(cs, axis) by {
            if i < last {
                assert(cs[i] == front[i]);
                assert(coord_of(front[i], axis) >= min_coord(front, axis));
                assert(coord_of(front[i], axis) <= max_coord(front, axis));
            }
        }
        let a = choose|i: int| 0 <= i < front.len() && #[trigger] coord_of(front[i], axis) == min_coord(front, axis);
        let b = choose|i: int| 0 <= i < front.len() && #[trigger] coord_of(front[i], axis) == max_coord(front, axis);
        assert(cs[a] == front[a]);
        assert(cs[b] == front[b]);
        if min_coord(front, axis) <= coord_of(cs.last(), axis) {
            assert(coord_of(cs[a], axis) == min_coord(cs, axis));
        } else {
            assert(coord_of(cs[last], axis) == min_coord(cs, axis));
        }
        if max_coord(front, axis) >= coord_of(cs.last(), axis) {
            assert(coord_of(cs[b], axis) == max_coord(cs, axis));
        } else {
            assert(coord_of(cs[last], axis) == max_coord(cs, axis));
        }
    } else {
        assert forall|i: int| 0 <= i < cs.len() implies min_coord(cs, axis) <= #[trigger] coord_of(cs[i], axis)
            <= max_coord(cs, axis) by {
            assert(i == last);
        }
        assert(coord_of(cs[last], axis) == min_coord(cs, axis));
        assert(coord_of(cs[last], axis) == max_coord(cs, axis));
    }
}


/// The bounding box's width and height fit `i64`, as does their sum.
pub open spec fn extent_fits(cs: Seq<(Seq<char>, i64, i64)>) -> bool {
    cs.len() > 0 ==> max_coord(cs, false) - min_coord(cs, false) + max_coord(cs, true) - min_coord(
        cs,
        true,
    ) <= i64::MAX
}

/// The summary line for a cell list.
pub open spec fn placement_summary(cs: Seq<(Seq<char>, i64, i64)>) -> Seq<char> {
    if cs.len() == 0 {
        "placed 0 cells"@
    } else {
        let w = max_coord(cs, false) - min_coord(cs, false);
        let h = max_coord(cs, true) - min_coord(cs, true);
        "placed "@ + nat_digits(cs.len()) + " cells, bbox "@ + int_text(w) + "x"@ + int_text(h)
            + ", hpwl "@ + int_text(w + h)
    }
}

proof fn lemma_min_le_max(cs: Seq<(Seq<char>, i64, i64)>, axis: bool)
    requires
        cs.len() > 0,
    ensures
        min_coord(cs, axis) <= max_coord(cs, axis),
    decreases cs.len(),
{
    if cs.len() > 1 {
        lemma_min_le_max(cs.drop_last(), axis);
    }
}

/// The least and greatest `x` and `y` of a non-empty cell list.
fn bounds_of(cells: &Vec<Cell>) -> (r: (i64, i64, i64, i64))
    requires
        cells@.len() > 0,
    ensures
        r.0 == min_coord(cell_views(cells@), false),
        r.1 == max_coord(cell_views(cells@), false),
        r.2 == min_coord(cell_views(cells@), true),
        r.3 == max_coord(cell_views(cells@), true),
{
    let ghost cs = cell_views(cells@);
    let mut min_x = cells[0].x;
    let mut max_x = cells[0].x;
    let mut min_y = cells[0].y;
    let mut max_y = cells[0].y;
    let mut i: usize = 1;
    while i < cells.len()
        invariant
            1 <= i <= cells@.len(),
            cs == cell_views(cells@),
            min_x == min_coord(cs.take(i as int), false),
            max_x == max_coord(cs.take(i as int), false),
            min_y == min_coord(cs.take(i as int), true),
            max_y == max_coord(cs.take(i as int), true),
        decreases cells@.len() - i,
    {
        proof {
            assert(cs.take(i + 1).drop_last() =~= cs.take(i as int));
        }
        let c = &cells[i];
        if c.x < min_x {
            min_x = c.x;
        }
        if c.x > max_x {
            max_x = c.x;
        }
        if c.y < min_y {
            min_y = c.y;
        }
        if c.y > max_y {
            max_y = c.y;
        }
        i = i + 1;
    }
    proof {
        assert(cs.take(cs.len() as int) =~= cs);
    }
    (min_x, max_x, min_y, max_y)
}

/// Whether the text's cells have an extent that [`place_and_route`] can
/// summarize: true for text that does not parse, and for a cell list whose
/// width plus height fits `i64`.
pub fn extent_fits_input(input: &str) -> (b: bool)
    ensures
        b == match spec_parse_cells(input@) {
            Ok(cs) => extent_fits(cs),
            Err(_) => true,
        },
{
    let cells = match parse(input) {
        Ok(c) => c,
        Err(_) => {
            return true;
        },
    };
    if cells.len() == 0 {
        return true;
    }
    let (min_x, max_x, min_y, max_y) = bounds_of(&cells);
    let w: i128 = max_x as i128 - min_x as i128;
    let h: i128 = max_y as i128 - min_y as i128;
    w + h <= i64::MAX as i128
}

/// Parse the list and summarize it: `placed N cells, bbox WxH, hpwl W+H`
/// (or `placed 0 cells`), or the parse error.
pub fn place_and_route(input: &str) -> (r: Result<String, String>)
    requires
        match spec_parse_cells(input@) {
            Ok(cs) => extent_fits(cs),
            Err(_) => true,
        },
    ensures
        match r {
            Ok(s) => spec_parse_cells(input@) is Ok && s@ == placement_summary(
                spec_parse_cells(input@)->Ok_0,
            ),
            Err(e) => spec_parse_cells(input@) == Err::<Seq<(Seq<char>, i64, i64)>, Seq<char>>(
                e@,
            ),
        },
{
    let cells = match parse(input) {
        Ok(c) => c,
        Err(e) => {
            return Err(e);
        },
    };
    let ghost cs = cell_views(cells@);
    if cells.len() == 0 {
        return Ok(String::from_str("placed 0 cells"));
    }
    let (min_x, max_x, min_y, max_y) = bounds_of(&cells);
    proof {
        lemma_min_le_max(cs, false);
        lemma_min_le_max(cs, true);
    }
    let w = max_x - min_x;
    let h = max_y - min_y;
    let mut s = String::from_str("placed ");
    let n = digits_u64(cells.len() as u64);
    s.append(n.as_str());
    s.append(" cells, bbox ");
    let ws = int_string(w);
    s.append(ws.as_str());
    s.append("x");
    let hs = int_string(h);
    s.append(hs.as_str());
    s.append(", hpwl ");
    let ps = int_string(w + h);
    s.append(ps.as_str());
    Ok(s)
}

} // verus!
