//! The Scenario Store: a scenario text parsed into an ordered list of agent
//! start/goal pairs, and the agent-count filter that limits how many of them
//! the markers show.
//!
//! A scenario text's first line is a header and is skipped; every other line
//! is split at tabs, and its fifth through eighth fields are the entry's
//! `(start_x, start_y, goal_x, goal_y)`.

use vstd::prelude::*;

use crate::num::lemma_digits_val_nonneg;
use crate::num::parse_u32;
use crate::num::parse_usize;
use crate::num::u32_field;
use crate::num::usize_field;
use crate::text::lines;
use crate::text::lines_of;
use crate::text::split_bytes;
use crate::text::split_on;
use crate::FormatError;

verus! {

/// One agent of a scenario: where it starts and where it must go.
#[derive(Clone, Copy, Debug, PartialEq, Eq, Structural)]
pub struct ScenEntry {
    pub start_x: u32,
    pub start_y: u32,
    pub goal_x: u32,
    pub goal_y: u32,
}

/// What one data line yields: the entry spelled out by fields four through
/// seven of the tab-split line, `None` when there are fewer than eight fields
/// or one of the four does not read as a 32-bit count.
pub open spec fn entry_of_line(line: Seq<u8>) -> Option<ScenEntry> {
    let fs = split_on(line, 9);
    if fs.len() < 8 {
        None
    } else {
        match (u32_field(fs[4]), u32_field(fs[5]), u32_field(fs[6]), u32_field(fs[7])) {
            (Some(sx), Some(sy), Some(gx), Some(gy)) => Some(
                ScenEntry {
                    start_x: sx as u32,
                    start_y: sy as u32,
                    goal_x: gx as u32,
                    goal_y: gy as u32,
                },
            ),
            _ => None,
        }
    }
}

/// What a scenario text parses to: one entry per data line, in line order;
/// `None` as soon as any data line yields none.
pub open spec fn scen_parse(text: Seq<u8>) -> Option<Seq<ScenEntry>> {
    let ls = lines_of(text);
    if ls.len() == 0 {
        Some(Seq::empty())
    } else {
        let data = ls.skip(1);
        if forall|i: int| 0 <= i < data.len() ==> (#[trigger] entry_of_line(data[i])) is Some {
            Some(Seq::new(data.len(), |i: int| entry_of_line(data[i])->0))
        } else {
            None
        }
    }
}

/// Parse one data line.
fn parse_entry(line: &Vec<u8>) -> (r: Option<ScenEntry>)
    ensures
        r == entry_of_line(line@),
{
    let fs = split_bytes(line.as_slice(), 9);
    proof {
        assert(fs@.map_values(|p: Vec<u8>| p@).len() == fs@.len());
    }
    if fs.len() < 8 {
        return None;
    }
    let sx = match parse_u32(fs[4].as_slice()) {
        Some(v) => v,
        None => {
            return None;
        },
    };
    let sy = match parse_u32(fs[5].as_slice()) {
        Some(v) => v,
        None => {
            return None;
        },
    };
    let gx = match parse_u32(fs[6].as_slice()) {
        Some(v) => v,
        None => {
            return None;
        },
    };
    let gy = match parse_u32(fs[7].as_slice()) {
        Some(v) => v,
        None => {
            return None;
        },
    };
    Some(ScenEntry { start_x: sx, start_y: sy, goal_x: gx, goal_y: gy })
}

/// Parse a scenario text into its entries, exactly as `scen_parse` describes.
#[verifier::loop_isolation(false)]
pub fn parse_scenario(text: &[u8]) -> (r: Result<Vec<ScenEntry>, FormatError>)
    ensures
        match r {
            Ok(v) => scen_parse(text@) == Some(v@),
            Err(_) => scen_parse(text@) is None,
        },
{
    let ls = lines(text);
    let ghost lsv = ls@.map_values(|p: Vec<u8>| p@);
    let mut entries: Vec<ScenEntry> = Vec::new();
    if ls.len() == 0 {
        proof {
            assert(entries@ =~= Seq::<ScenEntry>::empty());
        }
        return Ok(entries);
    }
    let ghost data = lsv.skip(1);
    let mut i: usize = 1;
    while i < ls.len()
        invariant
            1 <= i <= ls@.len(),
            entries@.len() == i - 1,
            forall|j: int| 0 <= j < i - 1 ==> entry_of_line(#[trigger] data[j]) == Some(entries@[j]),
        decreases ls@.len() - i,
    {
        proof {
            assert(data[i - 1] == lsv[i as int]);
        }
        match parse_entry(&ls[i]) {
            Some(e) => entries.push(e),
            None => {
                return Err(FormatError);
            },
        }
        i = i + 1;
    }
    proof {
        assert forall|j: int| 0 <= j < data.len() implies (#[trigger] entry_of_line(
            data[j],
        )) is Some by {}
        assert(entries@ =~= Seq::new(data.len(), |j: int| entry_of_line(data[j])->0));
    }
    Ok(entries)
}

/// The number of leading scenario entries the markers show: the filter text's
/// value when it reads as `n` with `0 < n <= count`, the whole count in every
/// other case (no filter, zero, unreadable, or past the end).
pub open spec fn effective_count_spec(filter: Seq<u8>, count: int) -> int {
    match usize_field(filter) {
        Some(n) => if 0 < n <= count {
            n
        } else {
            count
        },
        None => count,
    }
}

/// The effective agent count for a filter text over `count` entries.
pub fn effective_agent_count(filter: &[u8], count: usize) -> (r: usize)
    ensures
        r == effective_count_spec(filter@, count as int),
        r <= count,
{
    match parse_usize(filter) {
        Some(n) => if 0 < n && n <= count {
            n
        } else {
            count
        },
        None => count,
    }
}

/// Every parsed scenario has exactly one entry per data line, in line order,
/// and each entry is the four fields its own line declares.
pub proof fn lemma_scen_parse_lines(text: Seq<u8>)
    requires
        scen_parse(text) is Some,
        lines_of(text).len() > 0,
    ensures
        ({
            let entries = scen_parse(text)->0;
            let data = lines_of(text).skip(1);
            &&& entries.len() == data.len()
            &&& forall|i: int|
                0 <= i < data.len() ==> ({
                    let fs = split_on(#[trigger] data[i], 9);
                    &&& fs.len() >= 8
                    &&& u32_field(fs[4]) == Some(entries[i].start_x as int)
                    &&& u32_field(fs[5]) == Some(entries[i].start_y as int)
                    &&& u32_field(fs[6]) == Some(entries[i].goal_x as int)
                    &&& u32_field(fs[7]) == Some(entries[i].goal_y as int)
                })
        }),
{
    let entries = scen_parse(text)->0;
    let data = lines_of(text).skip(1);
    assert forall|i: int| 0 <= i < data.len() implies ({
        let fs = split_on(#[trigger] data[i], 9);
        &&& fs.len() >= 8
        &&& u32_field(fs[4]) == Some(entries[i].start_x as int)
        &&& u32_field(fs[5]) == Some(entries[i].start_y as int)
        &&& u32_field(fs[6]) == Some(entries[i].goal_x as int)
        &&& u32_field(fs[7]) == Some(entries[i].goal_y as int)
    }) by {
        assert(entry_of_line(data[i]) is Some);
        assert(entries[i] == entry_of_line(data[i])->0);
        let fs = split_on(data[i], 9);
        lemma_digits_val_nonneg(fs[4]);
        lemma_digits_val_nonneg(fs[5]);
        lemma_digits_val_nonneg(fs[6]);
        lemma_digits_val_nonneg(fs[7]);
    }
}

} // verus!
