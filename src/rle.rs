//! The RLE pattern format: comment lines, a header `x = W, y = H[, rule = R]`,
//! and data made of runs (`[count]b`, `[count]o`) and line breaks
//! (`[count]$`), ended by `!`.
use vstd::prelude::*;
use crate::cell_map::{CellMap, crop, is_board, rows_view};
use crate::error::{LifeError, ShapeError};
use crate::text::{
    chars_of, dec, decimal, is_digit, digit_val, num_val, is_ws, split_lines, split_lines_of,
    string_of, strings_of, strip_ws, strip_ws_chars, trim, trim_chars, trim_start, ws_end,
    skip_ws, seqs_of, lemma_ws_end, lemma_seqs_of_push,
};

verus! {

/// A pattern as read from, or written to, RLE text.
#[derive(Debug)]
pub struct RLE {
    /// The comment lines, in their order.
    pub comments: Vec<String>,
    /// The declared width.
    pub x: u32,
    /// The declared height.
    pub y: u32,
    /// The rule annotation of the header, if any.
    pub rule: Option<String>,
    /// The data section, `!` included, as written.
    pub data: String,
}

/// The content of an `RLE`.
pub struct Pattern {
    pub comments: Seq<Seq<char>>,
    pub x: u32,
    pub y: u32,
    pub rule: Option<Seq<char>>,
    pub data: Seq<char>,
}

pub open spec fn opt_chars(o: Option<String>) -> Option<Seq<char>> {
    match o {
        Some(s) => Some(s@),
        None => None,
    }
}

impl View for RLE {
    type V = Pattern;

    open spec fn view(&self) -> Pattern {
        Pattern {
            comments: strings_of(self.comments@),
            x: self.x,
            y: self.y,
            rule: opt_chars(self.rule),
            data: self.data@,
        }
    }
}

// ---------------------------------------------------------------------------
// Encoding
// ---------------------------------------------------------------------------

pub open spec fn cell_char(alive: bool) -> char {
    if alive {
        'o'
    } else {
        'b'
    }
}

/// One run: its count (left out when it is one) and its state letter.
pub open spec fn run_text(n: nat, alive: bool) -> Seq<char> {
    if n == 1 {
        seq![cell_char(alive)]
    } else {
        dec(n).push(cell_char(alive))
    }
}

/// The maximal runs of equal cells of `r`, left to right.
pub open spec fn runs(r: Seq<bool>) -> Seq<(nat, bool)>
    decreases r.len(),
{
    if r.len() == 0 {
        Seq::empty()
    } else {
        let p = runs(r.drop_last());
        let c = r.last();
        if p.len() > 0 && p.last().1 == c {
            p.update(p.len() - 1, (p.last().0 + 1, c))
        } else {
            p.push((1, c))
        }
    }
}

pub open spec fn runs_text(rs: Seq<(nat, bool)>) -> Seq<char>
    decreases rs.len(),
{
    if rs.len() == 0 {
        Seq::empty()
    } else {
        runs_text(rs.drop_last()) + run_text(rs.last().0, rs.last().1)
    }
}

/// A row in RLE: its runs, but for a final run of dead cells.
pub open spec fn enc_row(r: Seq<bool>) -> Seq<char> {
    let rs = runs(r);
    if rs.len() > 0 && !rs.last().1 {
        runs_text(rs.drop_last())
    } else {
        runs_text(rs)
    }
}

/// The encoded rows after a run of `k` empty rows was folded into a count:
/// after the previous row (`k + 1`), or alone before the first row (`k`).
pub open spec fn collapse_state(ls: Seq<Seq<char>>) -> (Seq<Seq<char>>, nat)
    decreases ls.len(),
{
    if ls.len() == 0 {
        (Seq::empty(), 0)
    } else {
        let (out, k) = collapse_state(ls.drop_last());
        let l = ls.last();
        if l.len() == 0 {
            (out, k + 1)
        } else if out.len() == 0 {
            ((if k > 0 {
                seq![dec(k)]
            } else {
                Seq::empty()
            }).push(l), 0)
        } else {
            (
                out.update(
                    out.len() - 1,
                    out.last() + (if k > 0 {
                        dec(k + 1)
                    } else {
                        Seq::empty()
                    }),
                ).push(l),
                0,
            )
        }
    }
}

/// The encoded rows with each run of empty rows folded into a line count;
/// empty rows at the end are left out.
pub open spec fn collapse(ls: Seq<Seq<char>>) -> Seq<Seq<char>> {
    collapse_state(ls).0
}

/// The lines `ls` joined with `sep` between each two.
pub open spec fn join_with(ls: Seq<Seq<char>>, sep: char) -> Seq<char>
    decreases ls.len(),
{
    if ls.len() == 0 {
        Seq::empty()
    } else if ls.len() == 1 {
        ls[0]
    } else {
        join_with(ls.drop_last(), sep).push(sep) + ls.last()
    }
}

/// The data section that encodes the board `g`, `!` included.
pub open spec fn encode_data(g: Seq<Seq<bool>>) -> Seq<char> {
    join_with(collapse(g.map_values(|r: Seq<bool>| enc_row(r))), '$').push('!')
}

/// The text of one run; nothing for a count of zero.
fn line_part_str(count: usize, cell: bool) -> (r: String)
    ensures
        count == 0 ==> r@ == Seq::<char>::empty(),
        count > 0 ==> r@ == run_text(count as nat, cell),
{
    let c = if cell {
        'o'
    } else {
        'b'
    };
    if count == 0 {
        String::new()
    } else if count == 1 {
        let mut s = String::new();
        s.push(c);
        s
    } else {
        let mut s = decimal(count as u64);
        s.push(c);
        s
    }
}

/// Appends `t` to `s`.
fn append_string(s: &mut String, t: &String)
    ensures
        final(s)@ == old(s)@ + t@,
{
    let mut i: usize = 0;
    let ghost s0 = s@;
    let cs = chars_of(t.as_str());
    while i < cs.len()
        invariant
            0 <= i <= cs@.len(),
            cs@ == t@,
            s@ == s0 + cs@.subrange(0, i as int),
        decreases cs@.len() - i,
    {
        s.push(cs[i]);
        i += 1;
        assert(s@ =~= s0 + cs@.subrange(0, i as int));
    }
    assert(cs@.subrange(0, i as int) =~= cs@);
}

/// One row in RLE; a final run of dead cells is not written.
fn encode_rle_line(line: &Vec<bool>) -> (r: String)
    ensures
        r@ == enc_row(line@),
{
    if line.len() == 0 {
        return String::new();
    }
    let mut rle_line = String::new();
    let mut last_cell = line[0];
    let mut count: usize = 0;
    let mut i: usize = 0;
    while i < line.len()
        invariant
            0 <= i <= line@.len(),
            line@.len() > 0,
            count <= i,
            i == 0 ==> count == 0 && rle_line@ == Seq::<char>::empty() && last_cell == line@[0],
            i > 0 ==> ({
                let rs = runs(line@.subrange(0, i as int));
                &&& rs.len() > 0
                &&& rs.last() == (count as nat, last_cell)
                &&& count > 0
                &&& rle_line@ == runs_text(rs.drop_last())
            }),
        decreases line@.len() - i,
    {
        let cell = line[i];
        let ghost pre = line@.subrange(0, i as int);
        let ghost rs = runs(pre);
        assert(line@.subrange(0, i + 1).drop_last() =~= pre);
        if cell == last_cell {
            count += 1;
            if i > 0 {
                assert(runs(line@.subrange(0, i + 1)).drop_last() =~= rs.drop_last());
            } else {
                assert(pre =~= Seq::<bool>::empty());
                assert(runs(line@.subrange(0, 1)) =~= seq![(1nat, cell)]);
                assert(runs(line@.subrange(0, 1)).drop_last() =~= Seq::<(nat, bool)>::empty());
            }
        } else {
            let part = line_part_str(count, last_cell);
            append_string(&mut rle_line, &part);
            assert(runs(line@.subrange(0, i + 1)).drop_last() =~= rs);
            count = 1;
            last_cell = cell;
        }
        i += 1;
    }
    assert(line@.subrange(0, i as int) =~= line@);
    if last_cell {
        let part = line_part_str(count, last_cell);
        append_string(&mut rle_line, &part);
    }
    rle_line
}

/// Folds each run of empty lines into a count: after the line before it
/// (the count of empty lines plus one), or, before the first line, alone on
/// a line of its own. Empty lines at the end are dropped.
fn process_empty_lines(all_lines: &mut Vec<String>)
    ensures
        strings_of(final(all_lines)@) == collapse(strings_of(old(all_lines)@)),
{
    let ghost ls = strings_of(all_lines@);
    let mut out: Vec<String> = Vec::new();
    let mut last = String::new();
    let mut have_last = false;
    let mut count_empty_lines: u64 = 0;
    let mut i: usize = 0;
    while i < all_lines.len()
        invariant
            0 <= i <= ls.len(),
            ls == strings_of(all_lines@),
            count_empty_lines <= i,
            ({
                let (o, k) = collapse_state(ls.subrange(0, i as int));
                &&& k == count_empty_lines
                &&& o == if have_last {
                    strings_of(out@).push(last@)
                } else {
                    strings_of(out@)
                }
                &&& !have_last ==> out@.len() == 0
            }),
        decreases ls.len() - i,
    {
        let line = all_lines[i].clone();
        assert(line@ == ls[i as int]);
        assert(ls.subrange(0, i + 1).drop_last() =~= ls.subrange(0, i as int));
        let ghost o0 = strings_of(out@);
        if line.as_str().is_empty() {
            count_empty_lines += 1;
        } else {
            if have_last {
                if count_empty_lines > 0 {
                    let n = decimal(count_empty_lines + 1);
                    append_string(&mut last, &n);
                }
                let ghost lv = last@;
                out.push(last);
                assert(strings_of(out@) =~= o0.push(lv));
            } else if count_empty_lines > 0 {
                out.push(decimal(count_empty_lines));
                assert(strings_of(out@) =~= seq![dec(count_empty_lines as nat)]);
            } else {
                assert(strings_of(out@) =~= Seq::<Seq<char>>::empty());
            }
            last = line;
            have_last = true;
            count_empty_lines = 0;
        }
        i += 1;
    }
    assert(ls.subrange(0, i as int) =~= ls);
    if have_last {
        let ghost o0 = strings_of(out@);
        let ghost lv = last@;
        out.push(last);
        assert(strings_of(out@) =~= o0.push(lv));
    }
    *all_lines = out;
}

/// The lines joined with `sep` between each two.
fn join_lines(ls: &Vec<String>, sep: char) -> (r: String)
    ensures
        r@ == join_with(strings_of(ls@), sep),
{
    let ghost v = strings_of(ls@);
    let mut r = String::new();
    let mut i: usize = 0;
    while i < ls.len()
        invariant
            0 <= i <= ls@.len(),
            v == strings_of(ls@),
            r@ == join_with(v.subrange(0, i as int), sep),
        decreases ls@.len() - i,
    {
        assert(v.subrange(0, i + 1).drop_last() =~= v.subrange(0, i as int));
        if i > 0 {
            r.push(sep);
        } else {
            assert(v.subrange(0, 1) =~= seq![v[0]]);
        }
        append_string(&mut r, &ls[i]);
        i += 1;
    }
    assert(v.subrange(0, i as int) =~= v);
    r
}

// ---------------------------------------------------------------------------
// Decoding
// ---------------------------------------------------------------------------

/// Where the reading of a data section stands: the finished rows, the cells
/// of the row being read, whether that row has had a run, the count read
/// and not yet used, and the first error met.
pub struct Decoding {
    pub rows: Seq<Seq<bool>>,
    pub cur: Seq<bool>,
    pub runs: bool,
    pub pending: Option<nat>,
    pub err: Option<LifeError>,
}

pub open spec fn blank(w: nat) -> Seq<bool> {
    Seq::new(w, |j: int| false)
}

/// `r` filled with dead cells up to `w` cells.
pub open spec fn pad(r: Seq<bool>, w: nat) -> Seq<bool> {
    r + Seq::new((w - r.len()) as nat, |j: int| false)
}

pub open spec fn failed(st: Decoding, e: LifeError) -> Decoding {
    Decoding { rows: st.rows, cur: st.cur, runs: st.runs, pending: st.pending, err: Some(e) }
}

/// The rows that a line break adds: the row read, if it had a run, and the
/// empty rows that its count asks for (the count less one after a run, the
/// whole count on a line without runs). `end_group` rejects a count of zero
/// before it gets here.
pub open spec fn group_rows(st: Decoding, w: nat) -> Seq<Seq<bool>> {
    let extra: nat = match st.pending {
        None => 0,
        Some(p) => if st.runs {
            (p - 1) as nat
        } else {
            p
        },
    };
    (if st.runs {
        seq![pad(st.cur, w)]
    } else {
        Seq::empty()
    }) + Seq::new(extra, |i: int| blank(w))
}

/// The end of a line of data, at `$` or at the end. A line count must be at
/// least one.
pub open spec fn end_group(st: Decoding, w: nat, h: nat) -> Decoding {
    if st.err is Some {
        st
    } else if st.pending == Some(0nat) {
        failed(st, LifeError::MalformedData)
    } else if st.rows.len() + group_rows(st, w).len() > h {
        failed(st, LifeError::InvalidShape(ShapeError::Overflow))
    } else {
        Decoding {
            rows: st.rows + group_rows(st, w),
            cur: Seq::empty(),
            runs: false,
            pending: None,
            err: None,
        }
    }
}

/// Reading one char of data for a board of `w` columns and `h` rows. A run
/// count must be at least one; any char but a digit, `b`, `o` or `$` is
/// malformed.
pub open spec fn decode_step(st: Decoding, c: char, w: nat, h: nat) -> Decoding {
    if st.err is Some {
        st
    } else if is_digit(c) {
        let p = match st.pending {
            Some(p) => p,
            None => 0,
        } * 10 + digit_val(c);
        if p > u32::MAX {
            failed(st, LifeError::NumberParseOverflow)
        } else {
            Decoding { rows: st.rows, cur: st.cur, runs: st.runs, pending: Some(p), err: None }
        }
    } else if c == 'b' || c == 'o' {
        let n = match st.pending {
            Some(p) => p,
            None => 1,
        };
        if n == 0 {
            failed(st, LifeError::MalformedData)
        } else if st.cur.len() + n > w {
            failed(st, LifeError::InvalidShape(ShapeError::Overflow))
        } else {
            Decoding {
                rows: st.rows,
                cur: st.cur + Seq::new(n, |j: int| c == 'o'),
                runs: true,
                pending: None,
                err: None,
            }
        }
    } else if c == '$' {
        end_group(st, w, h)
    } else {
        failed(st, LifeError::MalformedData)
    }
}

pub open spec fn decode_fold(st: Decoding, s: Seq<char>, w: nat, h: nat) -> Decoding
    decreases s.len(),
{
    if s.len() == 0 {
        st
    } else {
        decode_step(decode_fold(st, s.drop_last(), w, h), s.last(), w, h)
    }
}

pub open spec fn start() -> Decoding {
    Decoding { rows: Seq::empty(), cur: Seq::empty(), runs: false, pending: None, err: None }
}

/// The rows that the data `body` (its `!` taken off) gives.
pub open spec fn decode_rows(body: Seq<char>, w: nat, h: nat) -> Decoding {
    end_group(decode_fold(start(), body, w, h), w, h)
}

pub open spec fn data_char(c: char) -> bool {
    is_digit(c) || c == 'b' || c == 'o' || c == '$'
}

/// Data with whitespace taken out that follows `(run | line break)* !`.
pub open spec fn data_ok(d: Seq<char>) -> bool {
    &&& d.len() >= 1
    &&& d.last() == '!'
    &&& forall|i: int| 0 <= i < d.len() - 1 ==> data_char(#[trigger] d[i])
    &&& d.len() >= 2 ==> !is_digit(d[d.len() - 2])
}

/// The board of `h` rows of `w` cells that the data section `data` describes.
pub open spec fn decode_board(data: Seq<char>, w: nat, h: nat) -> Result<Seq<Seq<bool>>, LifeError> {
    let d = strip_ws(data);
    if d.len() == 0 {
        Err(LifeError::MissingData)
    } else if !data_ok(d) {
        Err(LifeError::MalformedData)
    } else {
        let st = decode_rows(d.drop_last(), w, h);
        match st.err {
            Some(e) => Err(e),
            None => if w == 0 || h == 0 {
                Err(LifeError::InvalidShape(ShapeError::Empty))
            } else {
                Ok(st.rows + Seq::new((h - st.rows.len()) as nat, |i: int| blank(w)))
            },
        }
    }
}

/// A board that the data gives has the declared size.
pub proof fn lemma_decode_board_shape(data: Seq<char>, w: nat, h: nat)
    requires
        decode_board(data, w, h) is Ok,
    ensures
        is_board(decode_board(data, w, h)->Ok_0),
        decode_board(data, w, h)->Ok_0.len() == h,
        decode_board(data, w, h)->Ok_0[0].len() == w,
{
    let d = strip_ws(data);
    let st = decode_rows(d.drop_last(), w, h);
    lemma_decode_shape(d.drop_last(), w, h);
    let g = st.rows + Seq::new((h - st.rows.len()) as nat, |i: int| blank(w));
    assert forall|i: int| 0 <= i < h implies (#[trigger] g[i]).len() == w by {
        if i < st.rows.len() {
            assert(g[i] == st.rows[i]);
        }
    }
}

/// Once an error is met, the rest of the data changes nothing.
proof fn lemma_decode_err_stays(s: Seq<char>, i: int, w: nat, h: nat)
    requires
        0 <= i <= s.len(),
        decode_fold(start(), s.subrange(0, i), w, h).err is Some,
    ensures
        decode_fold(start(), s, w, h) == decode_fold(start(), s.subrange(0, i), w, h),
    decreases s.len(),
{
    if i == s.len() {
        assert(s.subrange(0, i) =~= s);
    } else {
        assert(s.drop_last().subrange(0, i) =~= s.subrange(0, i));
        lemma_decode_err_stays(s.drop_last(), i, w, h);
    }
}

/// Whether the data `d`, whitespace taken out, follows the data grammar.
fn data_grammar_ok(d: &Vec<char>) -> (r: bool)
    ensures
        r == data_ok(d@),
{
    let n = d.len();
    if n == 0 || d[n - 1] != '!' {
        return false;
    }
    if n >= 2 && '0' <= d[n - 2] && d[n - 2] <= '9' {
        return false;
    }
    let mut i: usize = 0;
    while i < n - 1
        invariant
            n == d@.len(),
            n >= 1,
            0 <= i <= n - 1,
            forall|k: int| 0 <= k < i ==> data_char(#[trigger] d@[k]),
        decreases n - 1 - i,
    {
        let c = d[i];
        if !(('0' <= c && c <= '9') || c == 'b' || c == 'o' || c == '$') {
            return false;
        }
        i += 1;
    }
    true
}

impl RLE {
    /// Reads the data `body` (whitespace and final `!` taken off) into rows
    /// of `x` cells: each line break ends a row, a count before it adds
    /// empty rows, and cells a row leaves out are dead.
    fn process_file_lines(&self, body: &Vec<char>) -> (r: Result<Vec<Vec<bool>>, LifeError>)
        ensures
            ({
                let st = decode_rows(body@, self.x as nat, self.y as nat);
                match r {
                    Ok(v) => st.err is None && seqs_of(v@) == st.rows,
                    Err(e) => st.err == Some(e),
                }
            }),
    {
        let w = self.x as usize;
        let h = self.y as usize;
        let ghost wn = self.x as nat;
        let ghost hn = self.y as nat;
        let mut rows: Vec<Vec<bool>> = Vec::new();
        let mut cur: Vec<bool> = Vec::new();
        let mut runs = false;
        let mut pending: Option<u64> = None;
        let mut i: usize = 0;
        while i < body.len()
            invariant
                0 <= i <= body@.len(),
                w == wn,
                h == hn,
                wn == self.x as nat,
                hn == self.y as nat,
                ({
                    let st = decode_fold(start(), body@.subrange(0, i as int), wn, hn);
                    &&& st.err is None
                    &&& st.rows == seqs_of(rows@)
                    &&& st.cur == cur@
                    &&& st.runs == runs
                    &&& st.pending == match pending {
                        Some(p) => Some(p as nat),
                        None => None::<nat>,
                    }
                }),
                rows@.len() <= h,
                cur@.len() <= w,
                pending matches Some(p) ==> p <= u32::MAX,
            decreases body@.len() - i,
        {
            let c = body[i];
            let ghost st = decode_fold(start(), body@.subrange(0, i as int), wn, hn);
            assert(body@.subrange(0, i + 1).drop_last() =~= body@.subrange(0, i as int));
            let ghost next = decode_fold(start(), body@.subrange(0, i + 1), wn, hn);
            assert(next == decode_step(st, c, wn, hn));
            if '0' <= c && c <= '9' {
                let p = match pending {
                    Some(p) => p,
                    None => 0,
                } * 10 + (c as u32 - 48) as u64;
                if p > 0xffff_ffff {
                    assert(next.err == Some(LifeError::NumberParseOverflow));
                    proof {
                        lemma_decode_err_stays(body@, i + 1, wn, hn);
                    }
                    return Err(LifeError::NumberParseOverflow);
                }
                pending = Some(p);
            } else if c == 'b' || c == 'o' {
                let n = match pending {
                    Some(p) => p,
                    None => 1,
                };
                if n == 0 {
                    proof {
                        lemma_decode_err_stays(body@, i + 1, wn, hn);
                    }
                    return Err(LifeError::MalformedData);
                }
                if cur.len() as u64 + n > w as u64 {
                    proof {
                        lemma_decode_err_stays(body@, i + 1, wn, hn);
                    }
                    return Err(LifeError::InvalidShape(ShapeError::Overflow));
                }
                let alive = c == 'o';
                let ghost cur0 = cur@;
                let mut k: u64 = 0;
                while k < n
                    invariant
                        0 <= k <= n,
                        cur0.len() + n <= w,
                        cur@ == cur0 + Seq::new(k as nat, |j: int| alive),
                    decreases n - k,
                {
                    cur.push(alive);
                    k += 1;
                    assert(cur@ =~= cur0 + Seq::new(k as nat, |j: int| alive));
                }
                assert(Seq::new(n as nat, |j: int| alive) =~= Seq::new(n as nat, |j: int| c == 'o'));
                runs = true;
                pending = None;
            } else if c == '$' {
                match self.end_group_exec(&mut rows, &mut cur, runs, pending) {
                    Ok(()) => {},
                    Err(e) => {
                        proof {
                            lemma_decode_err_stays(body@, i + 1, wn, hn);
                        }
                        return Err(e);
                    },
                }
                runs = false;
                pending = None;
            } else {
                proof {
                    lemma_decode_err_stays(body@, i + 1, wn, hn);
                }
                return Err(LifeError::MalformedData);
            }
            i += 1;
        }
        assert(body@.subrange(0, i as int) =~= body@);
        match self.end_group_exec(&mut rows, &mut cur, runs, pending) {
            Ok(()) => Ok(rows),
            Err(e) => Err(e),
        }
    }

    /// Closes the row being read: adds it and the empty rows that the
    /// pending count asks for, unless they would pass the height.
    fn end_group_exec(
        &self,
        rows: &mut Vec<Vec<bool>>,
        cur: &mut Vec<bool>,
        runs: bool,
        pending: Option<u64>,
    ) -> (r: Result<(), LifeError>)
        requires
            old(rows)@.len() <= self.y,
            old(cur)@.len() <= self.x,
            pending matches Some(p) ==> p <= u32::MAX,
        ensures
            ({
                let st = Decoding {
                    rows: seqs_of(old(rows)@),
                    cur: old(cur)@,
                    runs,
                    pending: match pending {
                        Some(p) => Some(p as nat),
                        None => None::<nat>,
                    },
                    err: None,
                };
                let st2 = end_group(st, self.x as nat, self.y as nat);
                match r {
                    Ok(()) => {
                        &&& st2.err is None
                        &&& seqs_of(final(rows)@) == st2.rows
                        &&& final(cur)@ == st2.cur
                        &&& final(rows)@.len() <= self.y
                    },
                    Err(e) => st2.err == Some(e),
                }
            }),
    {
        let ghost st = Decoding {
            rows: seqs_of(rows@),
            cur: cur@,
            runs,
            pending: match pending {
                Some(p) => Some(p as nat),
                None => None::<nat>,
            },
            err: None,
        };
        let w = self.x as usize;
        let zero = match pending {
            Some(p) => p == 0,
            None => false,
        };
        if zero {
            return Err(LifeError::MalformedData);
        }
        let extra: u64 = match pending {
            None => 0,
            Some(p) => if runs {
                p - 1
            } else {
                p
            },
        };
        let one: u64 = if runs {
            1
        } else {
            0
        };
        assert(group_rows(st, self.x as nat).len() == one + extra);
        if rows.len() as u64 + one + extra > self.y as u64 {
            return Err(LifeError::InvalidShape(ShapeError::Overflow));
        }
        let ghost rows0 = seqs_of(rows@);
        if runs {
            let ghost c0 = cur@;
            while cur.len() < w
                invariant
                    c0.len() <= cur@.len() <= w,
                    cur@ == c0 + Seq::new((cur@.len() - c0.len()) as nat, |j: int| false),
                decreases w - cur@.len(),
            {
                cur.push(false);
                assert(cur@ =~= c0 + Seq::new((cur@.len() - c0.len()) as nat, |j: int| false));
            }
            let mut row: Vec<bool> = Vec::new();
            std::mem::swap(cur, &mut row);
            assert(row@ =~= pad(c0, self.x as nat));
            rows.push(row);
            assert(seqs_of(rows@) =~= rows0.push(pad(c0, self.x as nat)));
        } else {
            *cur = Vec::new();
        }
        let ghost rows1 = seqs_of(rows@);
        let mut k: u64 = 0;
        while k < extra
            invariant
                0 <= k <= extra,
                seqs_of(rows@) == rows1 + Seq::new(k as nat, |i: int| blank(w as nat)),
                w == self.x,
            decreases extra - k,
        {
            let ghost before = rows@;
            let row = dead_cells(w);
            rows.push(row);
            proof {
                lemma_seqs_of_push(before, row);
            }
            k += 1;
            assert(seqs_of(rows@) =~= rows1 + Seq::new(k as nat, |i: int| blank(w as nat)));
        }
        assert(seqs_of(rows@) =~= rows0 + group_rows(st, self.x as nat));
        assert(cur@ =~= Seq::<bool>::empty());
        Ok(())
    }

    /// The rows filled up with empty rows to the declared height.
    fn lines_to_map(&self, rows: Vec<Vec<bool>>) -> (r: Vec<Vec<bool>>)
        requires
            rows@.len() <= self.y,
        ensures
            seqs_of(r@) == seqs_of(rows@) + Seq::new((self.y - rows@.len()) as nat, |i: int| blank(self.x as nat)),
    {
        let mut map = rows;
        let ghost m0 = seqs_of(map@);
        let h = self.y as usize;
        let w = self.x as usize;
        while map.len() < h
            invariant
                m0.len() <= map@.len() <= h,
                h == self.y,
                w == self.x,
                seqs_of(map@) == m0 + Seq::new((map@.len() - m0.len()) as nat, |i: int| blank(w as nat)),
            decreases h - map@.len(),
        {
            let ghost before = map@;
            let row = dead_cells(w);
            map.push(row);
            proof {
                lemma_seqs_of_push(before, row);
            }
            assert(seqs_of(map@) =~= m0 + Seq::new((map@.len() - m0.len()) as nat, |i: int| blank(w as nat)));
        }
        map
    }

    /// The board that the data section describes, `x` cells wide and `y`
    /// rows high.
    pub fn to_cell_map(&self) -> (r: Result<CellMap, LifeError>)
        ensures
            r is Ok <==> decode_board(self.data@, self.x as nat, self.y as nat) is Ok,
            r matches Ok(c) ==> c.wf() && decode_board(self.data@, self.x as nat, self.y as nat) == Ok::<
                Seq<Seq<bool>>,
                LifeError,
            >(c@),
            r matches Err(e) ==> decode_board(self.data@, self.x as nat, self.y as nat) == Err::<
                Seq<Seq<bool>>,
                LifeError,
            >(e),
    {
        let raw = chars_of(self.data.as_str());
        let d = strip_ws_chars(&raw);
        if d.len() == 0 {
            return Err(LifeError::MissingData);
        }
        if !data_grammar_ok(&d) {
            return Err(LifeError::MalformedData);
        }
        let body = crate::text::slice_chars(&d, 0, d.len() - 1);
        assert(body@ =~= d@.drop_last());
        let rows = match self.process_file_lines(&body) {
            Ok(rows) => rows,
            Err(e) => return Err(e),
        };
        let ghost st = decode_rows(body@, self.x as nat, self.y as nat);
        proof {
            lemma_decode_shape(body@, self.x as nat, self.y as nat);
        }
        let map = self.lines_to_map(rows);
        let ghost g = seqs_of(map@);
        assert(g == st.rows + Seq::new((self.y - st.rows.len()) as nat, |i: int| blank(self.x as nat)));
        assert forall|i: int| 0 <= i < map@.len() implies (#[trigger] map@[i])@.len() == self.x by {
            assert(map@[i]@ == g[i]);
        }
        match CellMap::new(map) {
            Ok(c) => {
                assert(c@ =~= g);
                Ok(c)
            },
            Err(e) => {
                assert(self.x == 0 || self.y == 0) by {
                    if self.x > 0 && self.y > 0 {
                        assert(rows_view(map@) =~= g);
                        assert(g[0].len() == self.x);
                        assert(is_board(g));
                    }
                }
                Err(LifeError::InvalidShape(ShapeError::Empty))
            },
        }
    }
}

/// The rows that decoding gives have the declared width, and no more of
/// them than the declared height.
proof fn lemma_decode_shape(body: Seq<char>, w: nat, h: nat)
    ensures
        decode_rows(body, w, h).err is None ==> decode_rows(body, w, h).rows.len() <= h && forall|i: int|
            0 <= i < decode_rows(body, w, h).rows.len() ==> (#[trigger] decode_rows(
                body,
                w,
                h,
            ).rows[i]).len() == w,
{
    lemma_decode_fold_shape(body, w, h);
}

proof fn lemma_decode_fold_shape(s: Seq<char>, w: nat, h: nat)
    ensures
        ({
            let st = decode_fold(start(), s, w, h);
            st.err is None ==> {
                &&& st.rows.len() <= h
                &&& st.cur.len() <= w
                &&& forall|i: int| 0 <= i < st.rows.len() ==> (#[trigger] st.rows[i]).len() == w
                &&& forall|i: int| 0 <= i < end_group(st, w, h).rows.len() ==> (#[trigger] end_group(st, w, h).rows[i]).len() == w
                &&& end_group(st, w, h).err is None ==> end_group(st, w, h).rows.len() <= h
            }
        }),
    decreases s.len(),
{
    let st = decode_fold(start(), s, w, h);
    if s.len() > 0 {
        lemma_decode_fold_shape(s.drop_last(), w, h);
    }
    if st.err is None {
        let g = group_rows(st, w);
        assert forall|i: int| 0 <= i < g.len() implies (#[trigger] g[i]).len() == w by {}
        let e = end_group(st, w, h);
        if e.err is None {
            assert forall|i: int| 0 <= i < e.rows.len() implies (#[trigger] e.rows[i]).len() == w by {
                if i >= st.rows.len() {
                    assert(e.rows[i] == g[i - st.rows.len()]);
                }
            }
        }
    }
}

/// `w` dead cells.
fn dead_cells(w: usize) -> (r: Vec<bool>)
    ensures
        r@ == blank(w as nat),
{
    let mut r: Vec<bool> = Vec::new();
    while r.len() < w
        invariant
            r@.len() <= w,
            r@ == blank(r@.len()),
        decreases w - r@.len(),
    {
        r.push(false);
        assert(r@ =~= blank(r@.len()));
    }
    r
}

// ---------------------------------------------------------------------------
// Header and text
// ---------------------------------------------------------------------------

/// The first index at or after `i` that does not hold a decimal digit.
pub open spec fn digits_end(s: Seq<char>, i: int) -> int
    decreases s.len() - i,
{
    if 0 <= i < s.len() && is_digit(s[i]) {
        digits_end(s, i + 1)
    } else {
        i
    }
}

pub proof fn lemma_digits_end(s: Seq<char>, i: int)
    requires
        0 <= i <= s.len(),
    ensures
        i <= digits_end(s, i) <= s.len(),
        forall|k: int| i <= k < digits_end(s, i) ==> is_digit(s[k]),
        digits_end(s, i) < s.len() ==> !is_digit(s[digits_end(s, i)]),
    decreases s.len() - i,
{
    if i < s.len() && is_digit(s[i]) {
        lemma_digits_end(s, i + 1);
    }
}

pub open spec fn char_at(s: Seq<char>, i: int, c: char) -> bool {
    0 <= i < s.len() && s[i] == c
}

/// The header line `s` (trimmed): `x = W, y = H` with an optional
/// `, rule = R`, any whitespace around the signs, `R` without whitespace.
/// Gives the width, the height and the rule.
pub open spec fn header_spec(s: Seq<char>) -> Result<(nat, nat, Option<Seq<char>>), LifeError> {
    let a1 = ws_end(s, 1);
    let a2 = ws_end(s, a1 + 1);
    let a3 = digits_end(s, a2);
    let a4 = ws_end(s, a3);
    let a5 = ws_end(s, a4 + 1);
    let a6 = ws_end(s, a5 + 1);
    let a7 = ws_end(s, a6 + 1);
    let a8 = digits_end(s, a7);
    let a9 = ws_end(s, a8);
    let a10 = ws_end(s, a9 + 1);
    let a11 = ws_end(s, a10 + 4);
    let a12 = ws_end(s, a11 + 1);
    let sizes = char_at(s, 0, 'x') && char_at(s, a1, '=') && a3 > a2 && char_at(s, a4, ',')
        && char_at(s, a5, 'y') && char_at(s, a6, '=') && a8 > a7;
    let no_rule = a9 == s.len();
    let with_rule = char_at(s, a9, ',') && a10 + 4 <= s.len() && s.subrange(a10, a10 + 4) == seq![
        'r',
        'u',
        'l',
        'e',
    ] && char_at(s, a11, '=') && a12 < s.len() && forall|k: int| a12 <= k < s.len() ==> !is_ws(s[k]);
    if !(sizes && (no_rule || with_rule)) {
        Err(LifeError::MalformedHeader)
    } else {
        let x = num_val(s.subrange(a2, a3));
        let y = num_val(s.subrange(a7, a8));
        if x > u32::MAX || y > u32::MAX {
            Err(LifeError::NumberParseOverflow)
        } else {
            Ok(
                (
                    x,
                    y,
                    if no_rule {
                        None
                    } else {
                        Some(s.subrange(a12, s.len() as int))
                    },
                ),
            )
        }
    }
}

proof fn lemma_num_val_grows(t: Seq<char>, k: int)
    requires
        0 <= k <= t.len(),
    ensures
        num_val(t) >= num_val(t.subrange(0, k)),
    decreases t.len(),
{
    if k < t.len() {
        assert(t.drop_last().subrange(0, k) =~= t.subrange(0, k));
        lemma_num_val_grows(t.drop_last(), k);
    } else {
        assert(t.subrange(0, k) =~= t);
    }
}

fn digits_end_exec(s: &Vec<char>, i: usize) -> (r: usize)
    requires
        i <= s@.len(),
    ensures
        r == digits_end(s@, i as int),
{
    let mut k = i;
    while k < s.len() && '0' <= s[k] && s[k] <= '9'
        invariant
            i <= k <= s@.len(),
            digits_end(s@, k as int) == digits_end(s@, i as int),
        decreases s@.len() - k,
    {
        k += 1;
    }
    k
}

/// The number that the digits of `s` from `a` to `b` write, when it fits in
/// 32 bits.
fn parse_u32(s: &Vec<char>, a: usize, b: usize) -> (r: Option<u32>)
    requires
        a <= b <= s@.len(),
        forall|k: int| a <= k < b ==> is_digit(s@[k]),
    ensures
        r is None <==> num_val(s@.subrange(a as int, b as int)) > u32::MAX,
        r matches Some(v) ==> v == num_val(s@.subrange(a as int, b as int)),
{
    let mut acc: u64 = 0;
    let mut k = a;
    while k < b
        invariant
            a <= k <= b,
            b <= s@.len(),
            forall|j: int| a <= j < b ==> is_digit(s@[j]),
            acc == num_val(s@.subrange(a as int, k as int)),
            acc <= u32::MAX,
        decreases b - k,
    {
        let ghost t = s@.subrange(a as int, k + 1);
        assert(t.drop_last() =~= s@.subrange(a as int, k as int));
        acc = acc * 10 + (s[k] as u32 - 48) as u64;
        if acc > 0xffff_ffff {
            proof {
                assert(s@.subrange(a as int, b as int).subrange(0, k + 1 - a) =~= t);
                lemma_num_val_grows(s@.subrange(a as int, b as int), k + 1 - a);
            }
            return None;
        }
        k += 1;
    }
    Some(acc as u32)
}

/// Whether no char of `s` from `a` on is whitespace.
fn no_ws_from(s: &Vec<char>, a: usize) -> (r: bool)
    requires
        a <= s@.len(),
    ensures
        r == forall|k: int| a <= k < s@.len() ==> !is_ws(s@[k]),
{
    let mut k = a;
    while k < s.len()
        invariant
            a <= k <= s@.len(),
            forall|j: int| a <= j < k ==> !is_ws(s@[j]),
        decreases s@.len() - k,
    {
        if crate::text::is_whitespace(s[k]) {
            return false;
        }
        k += 1;
    }
    true
}

impl RLE {
    /// Reads the header line `input` (trimmed) into the width, the height
    /// and the rule.
    fn parse_config_string(input: &Vec<char>) -> (r: Result<(u32, u32, Option<String>), LifeError>)
        ensures
            match header_spec(input@) {
                Ok((x, y, rule)) => r matches Ok((a, b, rr)) && a == x && b == y && opt_chars(rr)
                    == rule,
                Err(e) => r == Err::<(u32, u32, Option<String>), LifeError>(e),
            },
    {
        let s = input;
        let ghost v = s@;
        let n = s.len();
        let bad = Err(LifeError::MalformedHeader);
        if n == 0 || s[0] != 'x' {
            return bad;
        }
        let a1 = skip_ws(s, 1);
        proof {
            lemma_ws_end(v, 1);
        }
        if a1 >= n || s[a1] != '=' {
            return bad;
        }
        let a2 = skip_ws(s, a1 + 1);
        proof {
            lemma_ws_end(v, a1 + 1);
            lemma_digits_end(v, a2 as int);
        }
        let a3 = digits_end_exec(s, a2);
        if a3 == a2 {
            return bad;
        }
        let a4 = skip_ws(s, a3);
        proof {
            lemma_ws_end(v, a3 as int);
        }
        if a4 >= n || s[a4] != ',' {
            return bad;
        }
        let a5 = skip_ws(s, a4 + 1);
        proof {
            lemma_ws_end(v, a4 + 1);
        }
        if a5 >= n || s[a5] != 'y' {
            return bad;
        }
        let a6 = skip_ws(s, a5 + 1);
        proof {
            lemma_ws_end(v, a5 + 1);
        }
        if a6 >= n || s[a6] != '=' {
            return bad;
        }
        let a7 = skip_ws(s, a6 + 1);
        proof {
            lemma_ws_end(v, a6 + 1);
            lemma_digits_end(v, a7 as int);
        }
        let a8 = digits_end_exec(s, a7);
        if a8 == a7 {
            return bad;
        }
        let a9 = skip_ws(s, a8);
        proof {
            lemma_ws_end(v, a8 as int);
        }
        let rule = if a9 == n {
            None
        } else {
            if s[a9] != ',' {
                return bad;
            }
            let a10 = skip_ws(s, a9 + 1);
            proof {
                lemma_ws_end(v, a9 + 1);
            }
            if !(n - a10 >= 4 && s[a10] == 'r' && s[a10 + 1] == 'u' && s[a10 + 2] == 'l' && s[a10
                + 3] == 'e') {
                if n - a10 >= 4 {
                    assert(v.subrange(a10 as int, a10 + 4) != seq!['r', 'u', 'l', 'e']) by {
                        if v.subrange(a10 as int, a10 + 4) == seq!['r', 'u', 'l', 'e'] {
                            assert(v.subrange(a10 as int, a10 + 4)[0] == v[a10 as int]);
                            assert(v.subrange(a10 as int, a10 + 4)[1] == v[a10 + 1]);
                            assert(v.subrange(a10 as int, a10 + 4)[2] == v[a10 + 2]);
                            assert(v.subrange(a10 as int, a10 + 4)[3] == v[a10 + 3]);
                        }
                    }
                }
                return bad;
            }
            assert(v.subrange(a10 as int, a10 + 4) =~= seq!['r', 'u', 'l', 'e']);
            let a11 = skip_ws(s, a10 + 4);
            proof {
                lemma_ws_end(v, a10 + 4);
            }
            if a11 >= n || s[a11] != '=' {
                return bad;
            }
            let a12 = skip_ws(s, a11 + 1);
            proof {
                lemma_ws_end(v, a11 + 1);
            }
            if a12 >= n {
                return bad;
            }
            if !no_ws_from(s, a12) {
                return bad;
            }
            let r = crate::text::slice_chars(s, a12, n);
            Some(string_of(&r))
        };
        let x = match parse_u32(s, a2, a3) {
            Some(x) => x,
            None => {
                return Err(LifeError::NumberParseOverflow);
            },
        };
        let y = match parse_u32(s, a7, a8) {
            Some(y) => y,
            None => {
                return Err(LifeError::NumberParseOverflow);
            },
        };
        Ok((x, y, rule))
    }
}

/// A comment line: its first char that is not whitespace is `#`.
pub open spec fn is_comment(l: Seq<char>) -> bool {
    let t = trim_start(l);
    t.len() > 0 && t[0] == '#'
}

pub open spec fn comment_lines(ls: Seq<Seq<char>>) -> Seq<Seq<char>>
    decreases ls.len(),
{
    if ls.len() == 0 {
        Seq::empty()
    } else if is_comment(ls.last()) {
        comment_lines(ls.drop_last()).push(ls.last())
    } else {
        comment_lines(ls.drop_last())
    }
}

pub open spec fn other_lines(ls: Seq<Seq<char>>) -> Seq<Seq<char>>
    decreases ls.len(),
{
    if ls.len() == 0 {
        Seq::empty()
    } else if !is_comment(ls.last()) {
        other_lines(ls.drop_last()).push(ls.last())
    } else {
        other_lines(ls.drop_last())
    }
}

/// The lines put end to end.
pub open spec fn concat_all(ls: Seq<Seq<char>>) -> Seq<char>
    decreases ls.len(),
{
    if ls.len() == 0 {
        Seq::empty()
    } else {
        concat_all(ls.drop_last()) + ls.last()
    }
}

/// The pattern that the RLE text `t` holds: its comment lines; the first
/// other line as header; the lines after it, put end to end, as data.
pub open spec fn parse_spec(t: Seq<char>) -> Result<Pattern, LifeError> {
    let ls = split_lines(t);
    let others = other_lines(ls);
    if others.len() == 0 {
        Err(LifeError::MissingHeader)
    } else {
        match header_spec(trim(others[0])) {
            Err(e) => Err(e),
            Ok((x, y, rule)) => {
                let data = concat_all(others.drop_first());
                let d = strip_ws(data);
                if d.len() == 0 {
                    Err(LifeError::MissingData)
                } else if !data_ok(d) {
                    Err(LifeError::MalformedData)
                } else {
                    Ok(Pattern { comments: comment_lines(ls), x: x as u32, y: y as u32, rule, data })
                }
            },
        }
    }
}

/// The board that the RLE text `t` describes.
pub open spec fn file_spec(t: Seq<char>) -> Result<Seq<Seq<bool>>, LifeError> {
    match parse_spec(t) {
        Err(e) => Err(e),
        Ok(p) => decode_board(p.data, p.x as nat, p.y as nat),
    }
}

/// The comment line put first in every exported file.
pub open spec fn banner() -> Seq<char> {
    "#C Generated by ALife"@
}

/// Each line with a line feed before it.
pub open spec fn prefixed(ls: Seq<Seq<char>>) -> Seq<char>
    decreases ls.len(),
{
    if ls.len() == 0 {
        Seq::empty()
    } else {
        prefixed(ls.drop_last()).push('\n') + ls.last()
    }
}

pub open spec fn header_text(x: u32, y: u32, rule: Option<Seq<char>>) -> Seq<char> {
    "x = "@ + dec(x as nat) + ", y = "@ + dec(y as nat) + match rule {
        Some(r) => ", rule = "@ + r,
        None => Seq::empty(),
    }
}

/// The RLE text of a pattern: the banner, the comments, the header and the
/// data, one per line.
pub open spec fn export_text(p: Pattern) -> Seq<char> {
    banner() + prefixed(p.comments) + seq!['\n'] + header_text(p.x, p.y, p.rule) + seq!['\n']
        + p.data
}

/// The pattern that encodes the board `g` with the comments `comments`.
pub open spec fn encode_pattern(g: Seq<Seq<bool>>, comments: Seq<Seq<char>>) -> Pattern {
    let c = crop(g);
    Pattern {
        comments,
        x: c[0].len() as u32,
        y: c.len() as u32,
        rule: Some("B3/S23"@),
        data: encode_data(c),
    }
}

fn is_comment_line(l: &Vec<char>) -> (r: bool)
    ensures
        r == is_comment(l@),
{
    let k = skip_ws(l, 0);
    proof {
        lemma_ws_end(l@, 0);
    }
    k < l.len() && l[k] == '#'
}

/// The lines that are not comments, and the comment lines as strings.
fn split_comments(lines: &Vec<Vec<char>>) -> (r: (Vec<Vec<char>>, Vec<String>))
    ensures
        seqs_of(r.0@) == other_lines(seqs_of(lines@)),
        strings_of(r.1@) == comment_lines(seqs_of(lines@)),
{
    let ghost ls = seqs_of(lines@);
    let mut others: Vec<Vec<char>> = Vec::new();
    let mut comments: Vec<String> = Vec::new();
    let mut i: usize = 0;
    while i < lines.len()
        invariant
            0 <= i <= lines@.len(),
            ls == seqs_of(lines@),
            seqs_of(others@) == other_lines(ls.subrange(0, i as int)),
            strings_of(comments@) == comment_lines(ls.subrange(0, i as int)),
        decreases lines@.len() - i,
    {
        assert(ls.subrange(0, i + 1).drop_last() =~= ls.subrange(0, i as int));
        assert(lines@[i as int]@ == ls[i as int]);
        let ghost o0 = others@;
        let ghost c0 = strings_of(comments@);
        if is_comment_line(&lines[i]) {
            let c = string_of(&lines[i]);
            let ghost cv = c@;
            comments.push(c);
            assert(strings_of(comments@) =~= c0.push(cv));
        } else {
            let l = crate::text::slice_chars(&lines[i], 0, lines[i].len());
            assert(l@ =~= ls[i as int]);
            others.push(l);
            proof {
                lemma_seqs_of_push(o0, l);
            }
        }
        i += 1;
    }
    assert(ls.subrange(0, i as int) =~= ls);
    (others, comments)
}

impl RLE {
    /// Splits `content` into its lines that are not comments, joined again
    /// with line feeds, and its comment lines.
    pub fn remove_and_collect_comments(content: &str) -> (r: (String, Vec<String>))
        ensures
            r.0@ == join_with(other_lines(split_lines(content@)), '\n'),
            strings_of(r.1@) == comment_lines(split_lines(content@)),
    {
        let chars = chars_of(content);
        let lines = split_lines_of(&chars);
        let (others, comments) = split_comments(&lines);
        let mut strs: Vec<String> = Vec::new();
        let mut i: usize = 0;
        while i < others.len()
            invariant
                0 <= i <= others@.len(),
                strings_of(strs@) == seqs_of(others@).subrange(0, i as int),
            decreases others@.len() - i,
        {
            let ghost s0 = strings_of(strs@);
            let t = string_of(&others[i]);
            let ghost tv = t@;
            strs.push(t);
            assert(tv == seqs_of(others@)[i as int]);
            assert(strings_of(strs@) =~= s0.push(tv));
            assert(strings_of(strs@) =~= seqs_of(others@).subrange(0, i + 1));
            i += 1;
        }
        assert(seqs_of(others@).subrange(0, i as int) =~= seqs_of(others@));
        (join_lines(&strs, '\n'), comments)
    }

    /// Reads RLE text: its comment lines, its header and its data section,
    /// which must follow the data grammar.
    pub fn parse(file_content: String) -> (r: Result<RLE, LifeError>)
        ensures
            r is Ok <==> parse_spec(file_content@) is Ok,
            r matches Ok(p) ==> parse_spec(file_content@) == Ok::<Pattern, LifeError>(p@),
            r matches Err(e) ==> parse_spec(file_content@) == Err::<Pattern, LifeError>(e),
    {
        let chars = chars_of(file_content.as_str());
        let lines = split_lines_of(&chars);
        let (others, comments) = split_comments(&lines);
        let ghost ov = seqs_of(others@);
        if others.len() == 0 {
            return Err(LifeError::MissingHeader);
        }
        assert(others@[0]@ == ov[0]);
        let header = trim_chars(&others[0]);
        let (x, y, rule) = match Self::parse_config_string(&header) {
            Ok(v) => v,
            Err(e) => {
                return Err(e);
            },
        };
        let mut data_chars: Vec<char> = Vec::new();
        let mut i: usize = 1;
        while i < others.len()
            invariant
                1 <= i <= others@.len(),
                ov == seqs_of(others@),
                data_chars@ == concat_all(ov.drop_first().subrange(0, i - 1)),
            decreases others@.len() - i,
        {
            let ghost d0 = data_chars@;
            let mut k: usize = 0;
            while k < others[i].len()
                invariant
                    0 <= k <= others@[i as int]@.len(),
                    1 <= i < others@.len(),
                    data_chars@ == d0 + others@[i as int]@.subrange(0, k as int),
                decreases others@[i as int]@.len() - k,
            {
                data_chars.push(others[i][k]);
                k += 1;
                assert(data_chars@ =~= d0 + others@[i as int]@.subrange(0, k as int));
            }
            assert(others@[i as int]@.subrange(0, k as int) =~= ov.drop_first()[i - 1]);
            assert(ov.drop_first().subrange(0, i as int).drop_last() =~= ov.drop_first().subrange(0, i - 1));
            i += 1;
        }
        assert(ov.drop_first().subrange(0, i - 1) =~= ov.drop_first());
        let d = strip_ws_chars(&data_chars);
        if d.len() == 0 {
            return Err(LifeError::MissingData);
        }
        if !data_grammar_ok(&d) {
            return Err(LifeError::MalformedData);
        }
        let data = string_of(&data_chars);
        Ok(RLE { comments, x, y, rule, data })
    }

    /// The RLE text of this pattern: a banner comment, the comments, the
    /// header and the data section, one per line.
    pub fn export(&self) -> (r: String)
        ensures
            r@ == export_text(self@),
    {
        let mut content = String::new();
        content.append("#C Generated by ALife");
        let ghost cs = strings_of(self.comments@);
        let mut i: usize = 0;
        while i < self.comments.len()
            invariant
                0 <= i <= self.comments@.len(),
                cs == strings_of(self.comments@),
                content@ == banner() + prefixed(cs.subrange(0, i as int)),
            decreases self.comments@.len() - i,
        {
            assert(cs.subrange(0, i + 1).drop_last() =~= cs.subrange(0, i as int));
            content.push('\n');
            append_string(&mut content, &self.comments[i]);
            i += 1;
            assert(content@ =~= banner() + prefixed(cs.subrange(0, i as int)));
        }
        assert(cs.subrange(0, i as int) =~= cs);
        content.push('\n');
        content.append("x = ");
        let xs = decimal(self.x as u64);
        append_string(&mut content, &xs);
        content.append(", y = ");
        let ys = decimal(self.y as u64);
        append_string(&mut content, &ys);
        match &self.rule {
            Some(r) => {
                content.append(", rule = ");
                append_string(&mut content, r);
            },
            None => {},
        }
        content.push('\n');
        append_string(&mut content, &self.data);
        assert(content@ =~= export_text(self@));
        content
    }

    /// The pattern of the board `c` cropped to its live cells, with the
    /// given comments and the rule `B3/S23`.
    pub fn from_cell_map(c: &CellMap, comments: Option<&Vec<String>>) -> (r: RLE)
        requires
            c.wf(),
        ensures
            r@ == encode_pattern(
                c@,
                match comments {
                    Some(v) => strings_of(v@),
                    None => Seq::empty(),
                },
            ),
    {
        let c = c.auto_crop();
        let ghost g = c@;
        let mut all_lines: Vec<String> = Vec::new();
        let mut i: usize = 0;
        while i < c.actual_generation.len()
            invariant
                0 <= i <= g.len(),
                c.wf(),
                g == c@,
                strings_of(all_lines@) == g.map_values(|r: Seq<bool>| enc_row(r)).subrange(0, i as int),
            decreases g.len() - i,
        {
            let line = encode_rle_line(&c.actual_generation[i]);
            let ghost lv = line@;
            let ghost a0 = strings_of(all_lines@);
            all_lines.push(line);
            assert(strings_of(all_lines@) =~= a0.push(lv));
            assert(strings_of(all_lines@) =~= g.map_values(|r: Seq<bool>| enc_row(r)).subrange(0, i + 1));
            i += 1;
        }
        assert(g.map_values(|r: Seq<bool>| enc_row(r)).subrange(0, i as int) =~= g.map_values(
            |r: Seq<bool>| enc_row(r),
        ));
        process_empty_lines(&mut all_lines);
        let mut data = join_lines(&all_lines, '$');
        data.push('!');
        let kept = match comments {
            Some(v) => v.clone(),
            None => Vec::new(),
        };
        assert(strings_of(kept@) =~= match comments {
            Some(v) => strings_of(v@),
            None => Seq::empty(),
        });
        let mut rule = String::new();
        rule.append("B3/S23");
        RLE { comments: kept, x: c.w, y: c.h, rule: Some(rule), data }
    }

    /// The board that the RLE text `file_content` describes.
    pub fn file_to_cell_map(file_content: String) -> (r: Result<CellMap, LifeError>)
        ensures
            r is Ok <==> file_spec(file_content@) is Ok,
            r matches Ok(c) ==> c.wf() && file_spec(file_content@) == Ok::<Seq<Seq<bool>>, LifeError>(c@),
            r matches Err(e) ==> file_spec(file_content@) == Err::<Seq<Seq<bool>>, LifeError>(e),
    {
        let rle = match Self::parse(file_content) {
            Ok(rle) => rle,
            Err(e) => {
                return Err(e);
            },
        };
        rle.to_cell_map()
    }

    /// The RLE text of the board `c` cropped to its live cells.
    pub fn cell_map_to_file(c: &CellMap, comments: Option<&Vec<String>>) -> (r: String)
        requires
            c.wf(),
        ensures
            r@ == export_text(
                encode_pattern(
                    c@,
                    match comments {
                        Some(v) => strings_of(v@),
                        None => Seq::empty(),
                    },
                ),
            ),
    {
        Self::from_cell_map(c, comments).export()
    }
}

} // verus!
