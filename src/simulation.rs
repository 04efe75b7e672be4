//! A whole run: read a pattern, advance it, write it back.
use vstd::prelude::*;
use crate::cell_map::{CellMap, life_step};
use crate::error::{LifeError, ShapeError};
use crate::rle::{RLE, encode_pattern, export_text, file_spec, parse_spec};

verus! {

/// What a run is asked to do: the RLE file to read, the number of
/// generations to simulate, and whether to print the result instead of
/// writing files.
#[derive(Debug)]
pub struct Args {
    pub file: String,
    pub gen: u32,
    pub output: bool,
}

/// The board `g` after `n` generations.
pub open spec fn steps(g: Seq<Seq<bool>>, n: nat) -> Seq<Seq<bool>>
    decreases n,
{
    if n == 0 {
        g
    } else {
        life_step(steps(g, (n - 1) as nat))
    }
}

/// Whether the board `g` can grow by one line on each side and keep its
/// sizes within `u32`.
pub open spec fn can_grow(g: Seq<Seq<bool>>) -> bool {
    g.len() + 2 <= u32::MAX && g[0].len() + 2 <= u32::MAX
}

/// Reads the RLE text `content`, advances its board `gen` generations, and
/// gives the final board with its RLE text, which keeps the comments of
/// `content`.
pub fn simulate(content: String, gen: u32) -> (r: Result<(CellMap, String), LifeError>)
    ensures
        r matches Ok((c, text)) ==> {
            &&& file_spec(content@) matches Ok(g0)
            &&& parse_spec(content@) matches Ok(p)
            &&& c.wf()
            &&& c@ == steps(g0, gen as nat)
            &&& text@ == export_text(encode_pattern(c@, p.comments))
        },
        r matches Err(e) ==> file_spec(content@) == Err::<Seq<Seq<bool>>, LifeError>(e) || (e
            == LifeError::InvalidShape(ShapeError::TooLarge) && file_spec(content@) is Ok && exists|
            k: nat|
            k < gen && !can_grow(#[trigger] steps(file_spec(content@)->Ok_0, k))),
        file_spec(content@) is Ok && (forall|k: nat| k < gen ==> can_grow(#[trigger] steps(
            file_spec(content@)->Ok_0,
            k,
        ))) ==> r is Ok,
{
    let ghost t = content@;
    let rle = match RLE::parse(content) {
        Ok(rle) => rle,
        Err(e) => {
            return Err(e);
        },
    };
    let mut cell_map = match rle.to_cell_map() {
        Ok(c) => c,
        Err(e) => {
            return Err(e);
        },
    };
    let ghost g0 = cell_map@;
    let mut i: u32 = 0;
    while i < gen
        invariant
            0 <= i <= gen,
            cell_map.wf(),
            file_spec(t) == Ok::<Seq<Seq<bool>>, LifeError>(g0),
            t == content@,
            cell_map@ == steps(g0, i as nat),
        decreases gen - i,
    {
        if cell_map.w > u32::MAX - 2 || cell_map.h > u32::MAX - 2 {
            assert(cell_map@.len() == cell_map.h);
            assert(cell_map@[0].len() == cell_map.w);
            assert(!can_grow(steps(g0, i as nat)));
            assert(file_spec(content@)->Ok_0 == g0);
            return Err(LifeError::InvalidShape(ShapeError::TooLarge));
        }
        cell_map.generate_next();
        i += 1;
    }
    let text = RLE::cell_map_to_file(&cell_map, Some(&rle.comments));
    Ok((cell_map, text))
}

} // verus!
