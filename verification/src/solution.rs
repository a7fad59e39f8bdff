//! The Solution Store: a solver's output text parsed into a time-indexed
//! table of per-agent positions, and the inverse serialization.
//!
//! Blank lines are discarded first. The first remaining line holds the agent
//! count and the step count; each following line holds one agent's position at
//! one step as `x,y`, in row-major `(step, agent)` order.

use vstd::prelude::*;

use vstd::arithmetic::div_mod::lemma_fundamental_div_mod;
use vstd::arithmetic::div_mod::lemma_mod_division_less_than_divisor;

use crate::num::dec_digits;
use crate::num::is_digit;
use crate::num::lemma_dec_digits_ok;
use crate::num::lemma_dec_digits_usize_field;
use crate::num::lemma_digits_val_nonneg;
use crate::num::parse_usize;
use crate::num::usize_field;
use crate::text::lemma_nonblank_concat;
use crate::text::lemma_split_line;
use crate::text::lemma_split_no_sep;
use crate::text::lemma_split_nonblank_concat;
use crate::text::nonblank;
use crate::text::nonblank_lines;
use crate::text::split_bytes;
use crate::text::split_on;
use crate::num::fmt_usize;
use crate::FormatError;

verus! {

/// One agent's position at one step, in cell coordinates.
#[derive(Clone, Copy, Debug, PartialEq, Eq, Structural)]
pub struct Pos {
    pub x: usize,
    pub y: usize,
}

/// A solution table as mathematics: its declared shape and its positions,
/// indexed step first, then agent.
#[verifier::ext_equal]
pub ghost struct SolModel {
    pub agents: int,
    pub steps: int,
    pub cells: Seq<Seq<Pos>>,
}

/// The sentinel table before any solver run: no agents, no steps.
pub open spec fn empty_model() -> SolModel {
    SolModel { agents: 0, steps: 0, cells: Seq::empty() }
}

/// The table's shape is exactly what it declares, with machine-sized counts.
pub open spec fn wf_model(m: SolModel) -> bool {
    &&& 0 <= m.agents <= usize::MAX
    &&& 0 <= m.steps <= usize::MAX
    &&& m.cells.len() == m.steps
    &&& forall|st: int| 0 <= st < m.cells.len() ==> (#[trigger] m.cells[st]).len() == m.agents
}

/// A solution trajectory: `steps` rows of `agents` positions each.
pub struct Solution {
    pub agents: usize,
    pub steps: usize,
    pub data: Vec<Vec<Pos>>,
}

impl Solution {
    pub open spec fn wf(self) -> bool {
        &&& self.data@.len() == self.steps
        &&& forall|st: int|
            0 <= st < self.data@.len() ==> (#[trigger] self.data@[st])@.len() == self.agents
    }

    /// The positions as a mathematical table.
    pub open spec fn cells(self) -> Seq<Seq<Pos>> {
        self.data@.map_values(|row: Vec<Pos>| row@)
    }

    pub open spec fn model(self) -> SolModel {
        SolModel { agents: self.agents as int, steps: self.steps as int, cells: self.cells() }
    }

    /// The empty table: what the store holds before any solver run and after
    /// every clear.
    pub fn empty() -> (sol: Solution)
        ensures
            sol.wf(),
            sol.model() == empty_model(),
    {
        let sol = Solution { agents: 0, steps: 0, data: Vec::new() };
        proof {
            assert(sol.model() =~~= empty_model());
        }
        sol
    }
}

/// What one data line yields: a position, when the line is exactly two
/// comma-separated counts.
pub open spec fn row_pos(line: Seq<u8>) -> Option<Pos> {
    let fs = split_on(line, 44);
    if fs.len() == 2 {
        match (usize_field(fs[0]), usize_field(fs[1])) {
            (Some(x), Some(y)) => Some(Pos { x: x as usize, y: y as usize }),
            _ => None,
        }
    } else {
        None
    }
}

/// What a solution text parses to: the empty table when there is no header or
/// the header has fewer than two fields; otherwise the table the header
/// declares, `None` when the header fields do not read as counts, when data
/// rows are missing, or when any data row is not exactly two counts.
pub open spec fn sol_parse(text: Seq<u8>) -> Option<SolModel> {
    let ls = nonblank(split_on(text, 10));
    if ls.len() == 0 {
        Some(empty_model())
    } else {
        let fs = split_on(ls[0], 32);
        if fs.len() < 2 {
            Some(empty_model())
        } else {
            match (usize_field(fs[0]), usize_field(fs[1])) {
                (Some(a), Some(s)) => if ls.len() - 1 < a * s {
                    None
                } else if forall|i: int|
                    0 <= i < a * s ==> (#[trigger] row_pos(ls[1 + i])) is Some {
                    Some(
                        SolModel {
                            agents: a,
                            steps: s,
                            cells: Seq::new(
                                s as nat,
                                |st: int|
                                    Seq::new(
                                        a as nat,
                                        |ag: int| row_pos(ls[1 + st * a + ag])->0,
                                    ),
                            ),
                        },
                    )
                } else {
                    None
                },
                _ => None,
            }
        }
    }
}

/// Parse one data line.
fn parse_pos_line(line: &Vec<u8>) -> (r: Option<Pos>)
    ensures
        r == row_pos(line@),
{
    let fs = split_bytes(line.as_slice(), 44);
    if fs.len() != 2 {
        return None;
    }
    let x = match parse_usize(fs[0].as_slice()) {
        Some(v) => v,
        None => {
            return None;
        },
    };
    let y = match parse_usize(fs[1].as_slice()) {
        Some(v) => v,
        None => {
            return None;
        },
    };
    Some(Pos { x, y })
}

/// Parse a solution text into a trajectory, exactly as `sol_parse` describes.
#[verifier::loop_isolation(false)]
pub fn parse_solution(text: &[u8]) -> (r: Result<Solution, FormatError>)
    ensures
        match r {
            Ok(sol) => sol.wf() && sol_parse(text@) == Some(sol.model()),
            Err(_) => sol_parse(text@) is None,
        },
{
    let ls = nonblank_lines(text);
    let ghost lsv = ls@.map_values(|p: Vec<u8>| p@);
    if ls.len() == 0 {
        return Ok(Solution::empty());
    }
    let header = split_bytes(ls[0].as_slice(), 32);
    if header.len() < 2 {
        return Ok(Solution::empty());
    }
    let a = match parse_usize(header[0].as_slice()) {
        Some(v) => v,
        None => {
            return Err(FormatError);
        },
    };
    let s = match parse_usize(header[1].as_slice()) {
        Some(v) => v,
        None => {
            return Err(FormatError);
        },
    };
    let total = match a.checked_mul(s) {
        Some(t) => t,
        None => {
            proof {
                assert(lsv.len() - 1 < (a as int) * (s as int));
            }
            return Err(FormatError);
        },
    };
    if ls.len() - 1 < total {
        return Err(FormatError);
    }
    let mut data: Vec<Vec<Pos>> = Vec::new();
    let mut st: usize = 0;
    while st < s
        invariant
            st <= s,
            data@.len() == st,
            forall|k: int| 0 <= k < st ==> (#[trigger] data@[k])@.len() == a,
            forall|k: int, j: int|
                0 <= k < st && 0 <= j < a ==> {
                    &&& (#[trigger] row_pos(lsv[1 + k * (a as int) + j])) is Some
                    &&& data@[k]@[j] == row_pos(lsv[1 + k * (a as int) + j])->0
                },
        decreases s - st,
    {
        let mut row: Vec<Pos> = Vec::new();
        let mut ag: usize = 0;
        while ag < a
            invariant
                st < s,
                ag <= a,
                row@.len() == ag,
                forall|j: int|
                    0 <= j < ag ==> {
                        &&& (#[trigger] row_pos(lsv[1 + st * (a as int) + j])) is Some
                        &&& row@[j] == row_pos(lsv[1 + st * (a as int) + j])->0
                    },
            decreases a - ag,
        {
            proof {
                assert((st as int) * (a as int) + (ag as int) < (s as int) * (a as int))
                    by (nonlinear_arith)
                    requires
                        0 <= st < s as int,
                        0 <= ag < a as int,
                ;
                assert((s as int) * (a as int) == (a as int) * (s as int))
                    by (nonlinear_arith);
            }
            let idx = 1 + st * a + ag;
            match parse_pos_line(&ls[idx]) {
                Some(p) => row.push(p),
                None => {
                    proof {
                        let ghost w = (st as int) * (a as int) + (ag as int);
                        assert(!(forall|i: int|
                            0 <= i < (a as int) * (s as int) ==> (#[trigger] row_pos(
                                lsv[1 + i],
                            )) is Some)) by {
                            if forall|i: int|
                                0 <= i < (a as int) * (s as int) ==> (#[trigger] row_pos(
                                    lsv[1 + i],
                                )) is Some {
                                assert(0 <= w < (a as int) * (s as int));
                                assert(row_pos(lsv[1 + w]) is Some);
                                assert(false);
                            }
                        }
                    }
                    return Err(FormatError);
                },
            }
            ag = ag + 1;
        }
        data.push(row);
        st = st + 1;
    }
    let sol = Solution { agents: a, steps: s, data };
    proof {
        assert forall|i: int| 0 <= i < (a as int) * (s as int) implies (#[trigger] row_pos(
            lsv[1 + i],
        )) is Some by {
            if a as int > 0 {
                let k = i / (a as int);
                let j = i % (a as int);
                lemma_fundamental_div_mod(i, a as int);
                lemma_mod_division_less_than_divisor(i, a as int);
                assert(0 <= j < a as int);
                assert(k < s as int) by (nonlinear_arith)
                    requires
                        0 < a as int,
                        0 <= i < (a as int) * (s as int),
                        i == (a as int) * k + j,
                        0 <= j < a as int,
                ;
                assert(k >= 0) by (nonlinear_arith)
                    requires
                        0 < a as int,
                        0 <= i,
                        i == (a as int) * k + j,
                        0 <= j < a as int,
                ;
                assert(1 + i == 1 + k * (a as int) + j);
            } else {
                assert((a as int) * (s as int) == 0) by (nonlinear_arith)
                    requires
                        a as int == 0,
                ;
            }
        }
        let m = sol_parse(text@)->0;
        assert(sol.model().cells.len() == m.cells.len());
        assert forall|k: int| 0 <= k < s as int implies sol.model().cells[k] =~= m.cells[k] by {
            assert(sol.model().cells[k] == sol.data@[k]@);
        }
        assert(sol.model() =~~= m);
    }
    Ok(sol)
}

/// The bytes of one position: two counts and a comma, never blank, never
/// containing a newline.
pub open spec fn pos_bytes(p: Pos) -> Seq<u8> {
    dec_digits(p.x as nat) + seq![44u8] + dec_digits(p.y as nat)
}

/// The serialized rows of the table's steps from `st` on: each position on a
/// line of its own, agents within a step in order, steps in order.
pub open spec fn row_block(row: Seq<Pos>, ag: int) -> Seq<u8>
    decreases row.len() - ag,
{
    if 0 <= ag < row.len() {
        pos_bytes(row[ag]) + seq![10u8] + row_block(row, ag + 1)
    } else {
        Seq::empty()
    }
}

pub open spec fn steps_block(cells: Seq<Seq<Pos>>, st: int) -> Seq<u8>
    decreases cells.len() - st,
{
    if 0 <= st < cells.len() {
        row_block(cells[st], 0) + steps_block(cells, st + 1)
    } else {
        Seq::empty()
    }
}

/// The row-major text of a table: the header line with the agent and step
/// counts, then one `x,y` line per `(step, agent)` pair.
pub open spec fn sol_text(m: SolModel) -> Seq<u8> {
    dec_digits(m.agents as nat) + seq![32u8] + dec_digits(m.steps as nat) + seq![10u8]
        + steps_block(m.cells, 0)
}

/// Serialize a trajectory into the row-major text format.
#[verifier::loop_isolation(false)]
pub fn solution_to_text(sol: &Solution) -> (r: Vec<u8>)
    requires
        sol.wf(),
    ensures
        r@ == sol_text(sol.model()),
{
    let ghost m = sol.model();
    let mut out = fmt_usize(sol.agents);
    out.push(32);
    let mut tail = fmt_usize(sol.steps);
    out.append(&mut tail);
    out.push(10);
    let mut st: usize = 0;
    proof {
        assert(out@ + steps_block(m.cells, 0) =~= sol_text(m));
    }
    while st < sol.steps
        invariant
            st <= sol.steps,
            out@ + steps_block(m.cells, st as int) == sol_text(m),
        decreases sol.steps - st,
    {
        let row = &sol.data[st];
        let ghost rowv = row@;
        let mut ag: usize = 0;
        proof {
            assert(out@ + row_block(rowv, 0) + steps_block(m.cells, st as int + 1) =~= sol_text(
                m,
            ));
        }
        while ag < row.len()
            invariant
                ag <= rowv.len(),
                row@ == rowv,
                rowv == m.cells[st as int],
                st < sol.steps,
                out@ + row_block(rowv, ag as int) + steps_block(m.cells, st as int + 1)
                    == sol_text(m),
            decreases rowv.len() - ag,
        {
            let p = row[ag];
            let mut xs = fmt_usize(p.x);
            out.append(&mut xs);
            out.push(44);
            let mut ys = fmt_usize(p.y);
            out.append(&mut ys);
            out.push(10);
            proof {
                assert(out@ + row_block(rowv, ag as int + 1) + steps_block(
                    m.cells,
                    st as int + 1,
                ) =~= sol_text(m));
            }
            ag = ag + 1;
        }
        st = st + 1;
    }
    proof {
        assert(out@ =~= sol_text(m));
    }
    out
}

/// Every byte of a position's text is a digit or the comma.
proof fn lemma_pos_bytes_wf(p: Pos)
    ensures
        pos_bytes(p).len() > 0,
        forall|i: int| 0 <= i < pos_bytes(p).len() ==> #[trigger] pos_bytes(p)[i] != 10,
{
    lemma_dec_digits_ok(p.x as nat);
    lemma_dec_digits_ok(p.y as nat);
    let dx = dec_digits(p.x as nat);
    let dy = dec_digits(p.y as nat);
    assert forall|i: int| 0 <= i < pos_bytes(p).len() implies #[trigger] pos_bytes(p)[i]
        != 10 by {
        if i < dx.len() {
            assert(is_digit(dx[i]));
        } else if i == dx.len() {
        } else {
            assert(is_digit(dy[i - dx.len() - 1]));
        }
    }
}

/// A position's text parses back to the position.
proof fn lemma_row_pos_roundtrip(p: Pos)
    ensures
        row_pos(pos_bytes(p)) == Some(p),
{
    let dx = dec_digits(p.x as nat);
    let dy = dec_digits(p.y as nat);
    lemma_dec_digits_ok(p.x as nat);
    lemma_dec_digits_ok(p.y as nat);
    assert forall|i: int| 0 <= i < dx.len() implies #[trigger] dx[i] != 44 by {
        assert(is_digit(dx[i]));
    }
    assert forall|i: int| 0 <= i < dy.len() implies #[trigger] dy[i] != 44 by {
        assert(is_digit(dy[i]));
    }
    lemma_split_line(dx, dy, 44);
    lemma_split_no_sep(dy, 44);
    assert(split_on(pos_bytes(p), 44) == seq![dx] + seq![dy]);
    assert((seq![dx] + seq![dy]).len() == 2);
    assert((seq![dx] + seq![dy])[0] == dx);
    assert((seq![dx] + seq![dy])[1] == dy);
    lemma_dec_digits_usize_field(p.x as nat);
    lemma_dec_digits_usize_field(p.y as nat);
}

/// The serialized rows of one step, re-split into lines, are exactly the
/// positions' texts in agent order.
proof fn lemma_row_block_lines(row: Seq<Pos>, ag: int)
    requires
        0 <= ag <= row.len(),
    ensures
        ({
            let l = nonblank(split_on(row_block(row, ag), 10));
            &&& l.len() == row.len() - ag
            &&& forall|j: int| 0 <= j < row.len() - ag ==> #[trigger] l[j] == pos_bytes(row[ag + j])
        }),
    decreases row.len() - ag,
{
    if ag == row.len() {
        assert(row_block(row, ag) =~= Seq::<u8>::empty());
        assert(split_on(Seq::<u8>::empty(), 10) == seq![Seq::<u8>::empty()]);
        assert(seq![Seq::<u8>::empty()].drop_last() =~= Seq::<Seq<u8>>::empty());
        assert(nonblank(Seq::<Seq<u8>>::empty()) == Seq::<Seq<u8>>::empty());
        assert(nonblank(seq![Seq::<u8>::empty()]) =~~= Seq::<Seq<u8>>::empty());
    } else {
        lemma_row_block_lines(row, ag + 1);
        lemma_pos_bytes_wf(row[ag]);
        let p = pos_bytes(row[ag]);
        let rest = row_block(row, ag + 1);
        lemma_split_line(p, rest, 10);
        assert(row_block(row, ag) =~= p + seq![10u8] + rest);
        lemma_nonblank_concat(seq![p], split_on(rest, 10));
        assert(seq![p].drop_last() =~= Seq::<Seq<u8>>::empty());
        assert(nonblank(Seq::<Seq<u8>>::empty()) =~~= Seq::<Seq<u8>>::empty());
        assert(nonblank(seq![p]) =~~= seq![p]);
        let l = nonblank(split_on(row_block(row, ag), 10));
        let lr = nonblank(split_on(rest, 10));
        assert(l =~~= seq![p] + lr);
        assert forall|j: int| 0 <= j < row.len() - ag implies #[trigger] l[j] == pos_bytes(
            row[ag + j],
        ) by {
            if j > 0 {
                assert(l[j] == lr[j - 1]);
                assert(lr[j - 1] == pos_bytes(row[ag + 1 + (j - 1)]));
            }
        }
    }
}

/// A serialized row block is empty or ends with a newline.
proof fn lemma_row_block_ends(row: Seq<Pos>, ag: int)
    requires
        0 <= ag <= row.len(),
    ensures
        row_block(row, ag).len() == 0 || row_block(row, ag).last() == 10,
    decreases row.len() - ag,
{
    if ag < row.len() {
        lemma_row_block_ends(row, ag + 1);
    }
}

/// The serialized rows of the steps from `st` on, re-split into lines, are
/// exactly the positions' texts in row-major order.
proof fn lemma_steps_block_lines(cells: Seq<Seq<Pos>>, agents: int, st: int)
    requires
        0 <= st <= cells.len(),
        forall|k: int| 0 <= k < cells.len() ==> (#[trigger] cells[k]).len() == agents,
    ensures
        ({
            let l = nonblank(split_on(steps_block(cells, st), 10));
            &&& l.len() == (cells.len() - st) * agents
            &&& forall|k: int, j: int|
                st <= k < cells.len() && 0 <= j < agents ==> #[trigger] l[(k - st) * agents + j]
                    == pos_bytes(cells[k][j])
        }),
    decreases cells.len() - st,
{
    if st == cells.len() {
        assert(steps_block(cells, st) =~= Seq::<u8>::empty());
        assert(split_on(Seq::<u8>::empty(), 10) == seq![Seq::<u8>::empty()]);
        assert(seq![Seq::<u8>::empty()].drop_last() =~= Seq::<Seq<u8>>::empty());
        assert(nonblank(Seq::<Seq<u8>>::empty()) == Seq::<Seq<u8>>::empty());
        assert(nonblank(seq![Seq::<u8>::empty()]) =~~= Seq::<Seq<u8>>::empty());
        assert((cells.len() - st) * agents == 0) by (nonlinear_arith)
            requires
                cells.len() - st == 0,
        ;
    } else {
        lemma_steps_block_lines(cells, agents, st + 1);
        lemma_row_block_lines(cells[st], 0);
        lemma_row_block_ends(cells[st], 0);
        let a = row_block(cells[st], 0);
        let b = steps_block(cells, st + 1);
        lemma_split_nonblank_concat(a, b, 10);
        assert(steps_block(cells, st) == a + b);
        let l = nonblank(split_on(steps_block(cells, st), 10));
        let la = nonblank(split_on(a, 10));
        let lb = nonblank(split_on(b, 10));
        assert(l == la + lb);
        assert(la.len() == agents);
        assert(lb.len() == (cells.len() - st - 1) * agents);
        assert((cells.len() - st) * agents == agents + (cells.len() - st - 1) * agents)
            by (nonlinear_arith)
            requires
                st < cells.len(),
        ;
        assert forall|k: int, j: int|
            st <= k < cells.len() && 0 <= j < agents implies #[trigger] l[(k - st) * agents + j]
            == pos_bytes(cells[k][j]) by {
            if k == st {
                assert((k - st) * agents + j == j) by (nonlinear_arith)
                    requires
                        k == st,
                ;
                assert(la[j] == pos_bytes(cells[st][0 + j]));
                assert(l[j] == la[j]);
            } else {
                let idx = (k - st) * agents + j;
                assert((k - st) * agents + j == agents + ((k - (st + 1)) * agents + j))
                    by (nonlinear_arith);
                assert(0 <= (k - (st + 1)) * agents + j < lb.len()) by (nonlinear_arith)
                    requires
                        st + 1 <= k < cells.len(),
                        0 <= j < agents,
                        lb.len() == (cells.len() - st - 1) * agents,
                ;
                assert(l[idx] == lb[(k - (st + 1)) * agents + j]);
                assert(lb[(k - (st + 1)) * agents + j] == pos_bytes(cells[k][j]));
            }
        }
    }
}

/// Every parsed table is well formed: it has exactly the declared step
/// count's rows, each with exactly the declared agent count's positions.
pub proof fn lemma_sol_parse_shape(text: Seq<u8>)
    requires
        sol_parse(text) is Some,
    ensures
        wf_model(sol_parse(text)->0),
        ({
            let ls = nonblank(split_on(text, 10));
            ls.len() > 0 && split_on(ls[0], 32).len() >= 2 ==> {
                let m = sol_parse(text)->0;
                let fs = split_on(ls[0], 32);
                &&& usize_field(fs[0]) == Some(m.agents)
                &&& usize_field(fs[1]) == Some(m.steps)
            }
        }),
{
    let ls = nonblank(split_on(text, 10));
    if ls.len() == 0 {
    } else {
        let fs = split_on(ls[0], 32);
        if fs.len() < 2 {
        } else {
            if usize_field(fs[0]) is Some && usize_field(fs[1]) is Some {
                lemma_digits_val_nonneg(fs[0]);
                lemma_digits_val_nonneg(fs[1]);
            }
        }
    }
}

/// Serializing a well-formed table and re-parsing the text reproduces the
/// identical table.
pub proof fn lemma_sol_round_trip(m: SolModel)
    requires
        wf_model(m),
    ensures
        sol_parse(sol_text(m)) == Some(m),
{
    let da = dec_digits(m.agents as nat);
    let ds = dec_digits(m.steps as nat);
    lemma_dec_digits_ok(m.agents as nat);
    lemma_dec_digits_ok(m.steps as nat);
    lemma_dec_digits_usize_field(m.agents as nat);
    lemma_dec_digits_usize_field(m.steps as nat);
    let header = da + seq![32u8] + ds;
    let body = steps_block(m.cells, 0);
    assert forall|i: int| 0 <= i < header.len() implies #[trigger] header[i] != 10 by {
        if i < da.len() {
            assert(is_digit(da[i]));
        } else if i == da.len() {
        } else {
            assert(is_digit(ds[i - da.len() - 1]));
        }
    }
    assert(sol_text(m) =~= header + seq![10u8] + body);
    lemma_split_line(header, body, 10);
    lemma_nonblank_concat(seq![header], split_on(body, 10));
    assert(seq![header].drop_last() =~= Seq::<Seq<u8>>::empty());
    assert(nonblank(Seq::<Seq<u8>>::empty()) =~~= Seq::<Seq<u8>>::empty());
    assert(nonblank(seq![header]) =~~= seq![header]);
    lemma_steps_block_lines(m.cells, m.agents, 0);
    let lb = nonblank(split_on(body, 10));
    let ls = nonblank(split_on(sol_text(m), 10));
    assert(ls =~~= seq![header] + lb);
    assert(lb.len() == (m.cells.len() - 0) * m.agents);
    assert(m.cells.len() * m.agents == m.steps * m.agents);
    assert(ls.len() == 1 + m.steps * m.agents);
    assert(ls[0] == header);
    assert forall|i: int| 0 <= i < da.len() implies #[trigger] da[i] != 32 by {
        assert(is_digit(da[i]));
    }
    assert forall|i: int| 0 <= i < ds.len() implies #[trigger] ds[i] != 32 by {
        assert(is_digit(ds[i]));
    }
    lemma_split_line(da, ds, 32);
    lemma_split_no_sep(ds, 32);
    let fs = split_on(header, 32);
    assert(fs == seq![da] + seq![ds]);
    assert(fs.len() == 2);
    assert(fs[0] == da);
    assert(fs[1] == ds);
    assert(usize_field(fs[0]) == Some(m.agents));
    assert(usize_field(fs[1]) == Some(m.steps));
    assert(m.agents * m.steps == m.steps * m.agents);
    assert(!(ls.len() - 1 < m.agents * m.steps));
    assert forall|i: int| 0 <= i < m.agents * m.steps implies (#[trigger] row_pos(
        ls[1 + i],
    )) is Some by {
        if m.agents > 0 {
            let k = i / m.agents;
            let j = i % m.agents;
            lemma_fundamental_div_mod(i, m.agents);
            lemma_mod_division_less_than_divisor(i, m.agents);
            assert(k < m.steps) by (nonlinear_arith)
                requires
                    0 < m.agents,
                    0 <= i < m.agents * m.steps,
                    i == m.agents * k + j,
                    0 <= j < m.agents,
            ;
            assert(k >= 0) by (nonlinear_arith)
                requires
                    0 < m.agents,
                    0 <= i,
                    i == m.agents * k + j,
                    0 <= j < m.agents,
            ;
            assert(k * m.agents == m.agents * k);
            assert(lb[(k - 0) * m.agents + j] == pos_bytes(m.cells[k][j]));
            assert(1 + i == 1 + (k * m.agents + j));
            assert(ls[1 + i] == pos_bytes(m.cells[k][j]));
            lemma_row_pos_roundtrip(m.cells[k][j]);
        } else {
            assert(m.agents * m.steps == 0) by (nonlinear_arith)
                requires
                    m.agents == 0,
            ;
        }
    }
    let parsed = sol_parse(sol_text(m))->0;
    assert(sol_parse(sol_text(m)) is Some);
    assert(parsed.agents == m.agents);
    assert(parsed.steps == m.steps);
    assert forall|k: int| 0 <= k < m.steps implies parsed.cells[k] =~= m.cells[k] by {
        assert forall|j: int| 0 <= j < m.agents implies parsed.cells[k][j] == m.cells[k][j] by {
            assert(0 <= k * m.agents + j < m.steps * m.agents) by (nonlinear_arith)
                requires
                    0 <= k < m.steps,
                    0 <= j < m.agents,
            ;
            assert(lb[(k - 0) * m.agents + j] == pos_bytes(m.cells[k][j]));
            assert(ls[1 + (k * m.agents + j)] == pos_bytes(m.cells[k][j]));
            lemma_row_pos_roundtrip(m.cells[k][j]);
            assert(parsed.cells[k][j] == row_pos(ls[1 + k * m.agents + j])->0);
        }
    }
    assert(parsed =~~= m);
}

} // verus!
