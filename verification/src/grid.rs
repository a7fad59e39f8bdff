//! The Map Store: a map text parsed into a two-dimensional occupancy grid.
//!
//! A map text's first line is a format tag and is ignored; its second and
//! third lines end with the grid height and width; every following line is one
//! grid row, where any byte other than `.` marks an obstacle cell.

use vstd::prelude::*;

use crate::num::parse_usize;
use crate::num::usize_field;
use crate::text::lemma_split_nonempty;
use crate::text::lines;
use crate::text::lines_of;
use crate::text::split_bytes;
use crate::text::split_on;
use crate::FormatError;

verus! {

/// A grid as mathematics: its declared size and its cells, `true` marking an
/// obstacle.
#[verifier::ext_equal]
pub ghost struct GridModel {
    pub width: int,
    pub height: int,
    pub cells: Seq<Seq<bool>>,
}

/// The occupancy grid of a loaded map: `height` rows of `width` cells each.
pub struct Grid {
    pub width: usize,
    pub height: usize,
    pub occupied: Vec<Vec<bool>>,
}

impl Grid {
    /// The grid holds exactly `height` rows of exactly `width` cells.
    pub open spec fn wf(self) -> bool {
        &&& self.occupied@.len() == self.height
        &&& forall|r: int|
            0 <= r < self.occupied@.len() ==> (#[trigger] self.occupied@[r])@.len() == self.width
    }

    /// The cells as a mathematical grid.
    pub open spec fn cells(self) -> Seq<Seq<bool>> {
        self.occupied@.map_values(|row: Vec<bool>| row@)
    }

    pub open spec fn model(self) -> GridModel {
        GridModel { width: self.width as int, height: self.height as int, cells: self.cells() }
    }

    /// The sentinel before any map is loaded: a zero-sized grid, which
    /// suppresses all cell-based rendering.
    pub fn empty() -> (g: Grid)
        ensures
            g.wf(),
            g.width == 0,
            g.height == 0,
            g.occupied@.len() == 0,
    {
        Grid { width: 0, height: 0, occupied: Vec::new() }
    }
}

/// The value a header line declares: its last space-separated token, read as
/// a count.
pub open spec fn header_value(line: Seq<u8>) -> Option<int> {
    usize_field(split_on(line, 32).last())
}

/// What a map text parses to: `None` on any format violation, otherwise the
/// grid whose size the headers declare and whose cells the body rows spell
/// out, one row per line, an obstacle wherever the byte is not `.`.
pub open spec fn map_parse(text: Seq<u8>) -> Option<GridModel> {
    let ls = lines_of(text);
    if ls.len() < 3 {
        None
    } else {
        match (header_value(ls[1]), header_value(ls[2])) {
            (Some(h), Some(w)) => if ls.len() - 3 == h && (forall|r: int|
                0 <= r < h ==> (#[trigger] ls[3 + r]).len() == w) {
                Some(
                    GridModel {
                        width: w,
                        height: h,
                        cells: Seq::new(
                            h as nat,
                            |r: int| Seq::new(w as nat, |c: int| ls[3 + r][c] != 46),
                        ),
                    },
                )
            } else {
                None
            },
            _ => None,
        }
    }
}

/// The last space-separated token of a line.
fn last_token(line: &Vec<u8>) -> (r: Vec<u8>)
    ensures
        r@ == split_on(line@, 32).last(),
{
    let mut ps = split_bytes(line.as_slice(), 32);
    proof {
        lemma_split_nonempty(line@, 32);
        assert(ps@.map_values(|p: Vec<u8>| p@).last() == ps@.last()@);
    }
    ps.pop().unwrap()
}

/// Parse a map text into a grid, exactly as `map_parse` describes.
#[verifier::loop_isolation(false)]
pub fn parse_map(text: &[u8]) -> (r: Result<Grid, FormatError>)
    ensures
        match r {
            Ok(g) => g.wf() && map_parse(text@) == Some(g.model()),
            Err(_) => map_parse(text@) is None,
        },
{
    let ls = lines(text);
    let ghost lsv = ls@.map_values(|p: Vec<u8>| p@);
    if ls.len() < 3 {
        return Err(FormatError);
    }
    let htok = last_token(&ls[1]);
    let h = match parse_usize(htok.as_slice()) {
        Some(v) => v,
        None => {
            return Err(FormatError);
        },
    };
    let wtok = last_token(&ls[2]);
    let w = match parse_usize(wtok.as_slice()) {
        Some(v) => v,
        None => {
            return Err(FormatError);
        },
    };
    if ls.len() - 3 != h {
        return Err(FormatError);
    }
    let mut occupied: Vec<Vec<bool>> = Vec::new();
    let mut r: usize = 0;
    while r < h
        invariant
            r <= h,
            occupied@.len() == r,
            forall|rr: int| 0 <= rr < r ==> (#[trigger] occupied@[rr])@.len() == w,
            forall|rr: int| 0 <= rr < r ==> (#[trigger] lsv[3 + rr]).len() == w,
            forall|rr: int, c: int|
                0 <= rr < r && 0 <= c < w ==> (#[trigger] occupied@[rr]@[c]) == (lsv[3 + rr][c]
                    != 46),
        decreases h - r,
    {
        let line = &ls[3 + r];
        if line.len() != w {
            proof {
                assert(lsv[3 + r as int].len() != w);
            }
            return Err(FormatError);
        }
        let mut row: Vec<bool> = Vec::new();
        let mut c: usize = 0;
        while c < w
            invariant
                c <= w,
                row@.len() == c,
                forall|cc: int| 0 <= cc < c ==> (#[trigger] row@[cc]) == (line@[cc] != 46),
            decreases w - c,
        {
            row.push(line[c] != 46);
            c = c + 1;
        }
        occupied.push(row);
        r = r + 1;
    }
    let g = Grid { width: w, height: h, occupied };
    proof {
        let m = map_parse(text@)->0;
        assert(g.model().cells.len() == m.cells.len());
        assert forall|rr: int| 0 <= rr < h implies g.model().cells[rr] =~= m.cells[rr] by {
            assert(g.model().cells[rr] == g.occupied@[rr]@);
        }
        assert(g.model() =~~= m);
    }
    Ok(g)
}

/// A parsed grid has exactly the declared height's rows and the declared
/// width's columns, and a cell is an obstacle exactly where its body row has
/// a byte other than `.`; a body row of dots alone gives a row of free cells.
pub proof fn lemma_map_parse_shape(text: Seq<u8>)
    requires
        map_parse(text) is Some,
    ensures
        ({
            let m = map_parse(text)->0;
            let ls = lines_of(text);
            &&& m.height == header_value(ls[1])->0
            &&& m.width == header_value(ls[2])->0
            &&& m.cells.len() == m.height
            &&& forall|r: int| 0 <= r < m.height ==> (#[trigger] m.cells[r]).len() == m.width
            &&& forall|r: int, c: int|
                0 <= r < m.height && 0 <= c < m.width ==> ((#[trigger] m.cells[r][c]) <==> ls[3
                    + r][c] != 46)
        }),
{
}

} // verus!
