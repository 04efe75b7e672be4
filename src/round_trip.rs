//! Writing a board as RLE and reading it back gives the board again.
use vstd::prelude::*;
use crate::cell_map::{is_board, row_alive};
use crate::rle::{
    Decoding, blank, cell_char, collapse_state, data_char, data_ok, decode_board,
    decode_fold, decode_rows, decode_step, enc_row, encode_data, group_rows, join_with,
    pad, run_text, runs, runs_text, start,
};
use crate::text::{
    dec, digit_char, digit_val, is_digit, is_ws, lemma_dec_digits, strip_ws, ws_end, trim,
    lemma_ws_end_at, lemma_ws_back_at,
};
use crate::rle::{
    digits_end, header_spec, header_text, Pattern, banner, comment_lines, concat_all, encode_pattern,
    export_text, file_spec, is_comment, other_lines, parse_spec, prefixed,
};
use crate::text::{
    line_fold, split_lines, strip_cr, lemma_line_fold_append, lemma_line_fold_plain,
    lemma_line_fold_newline, lemma_split_lines_no_newline, trim_start,
};
use crate::cell_map::{crop, lemma_crop_idempotent};

verus! {

/// The cells that runs stand for.
pub open spec fn expand(rs: Seq<(nat, bool)>) -> Seq<bool>
    decreases rs.len(),
{
    if rs.len() == 0 {
        Seq::empty()
    } else {
        expand(rs.drop_last()) + Seq::new(rs.last().0, |j: int| rs.last().1)
    }
}

proof fn lemma_fold_append(st: Decoding, a: Seq<char>, b: Seq<char>, w: nat, h: nat)
    ensures
        decode_fold(st, a + b, w, h) == decode_fold(decode_fold(st, a, w, h), b, w, h),
    decreases b.len(),
{
    if b.len() == 0 {
        assert(a + b =~= a);
    } else {
        assert((a + b).drop_last() =~= a + b.drop_last());
        lemma_fold_append(st, a, b.drop_last(), w, h);
    }
}

proof fn lemma_fold_one(st: Decoding, c: char, w: nat, h: nat)
    ensures
        decode_fold(st, seq![c], w, h) == decode_step(st, c, w, h),
{
    assert(seq![c].drop_last() =~= Seq::<char>::empty());
    assert(decode_fold(st, Seq::<char>::empty(), w, h) == st);
    assert(seq![c].last() == c);
}

/// The digits of `n` leave `n` as the pending count.
proof fn lemma_fold_dec(st: Decoding, n: nat, w: nat, h: nat)
    requires
        st.err is None,
        st.pending is None,
        n <= u32::MAX,
    ensures
        decode_fold(st, dec(n), w, h) == (Decoding {
            rows: st.rows,
            cur: st.cur,
            runs: st.runs,
            pending: Some(n),
            err: None,
        }),
    decreases n,
{
    lemma_dec_digits(n);
    if n < 10 {
        lemma_fold_one(st, digit_char(n), w, h);
        assert(digit_val(digit_char(n)) == n);
    } else {
        lemma_fold_dec(st, n / 10, w, h);
        assert(dec(n).drop_last() == dec(n / 10));
        assert(digit_val(digit_char(n % 10)) == n % 10);
        assert((n / 10) * 10 + n % 10 == n);
    }
}

proof fn lemma_runs(r: Seq<bool>)
    ensures
        expand(runs(r)) == r,
        forall|i: int| 0 <= i < runs(r).len() ==> (#[trigger] runs(r)[i]).0 >= 1,
        forall|i: int| 0 <= i < runs(r).len() - 1 ==> (#[trigger] runs(r)[i]).1 != runs(r)[i + 1].1,
        runs(r).len() == 0 <==> r.len() == 0,
        r.len() > 0 ==> runs(r).last().1 == r.last(),
    decreases r.len(),
{
    if r.len() > 0 {
        let p = runs(r.drop_last());
        lemma_runs(r.drop_last());
        let c = r.last();
        if p.len() > 0 && p.last().1 == c {
            let q = p.update(p.len() - 1, (p.last().0 + 1, c));
            assert(q.drop_last() =~= p.drop_last());
            assert(expand(p) == expand(p.drop_last()) + Seq::new(p.last().0, |j: int| p.last().1));
            assert(expand(q) =~= r) by {
                assert(Seq::new(q.last().0, |j: int| q.last().1) =~= Seq::new(p.last().0, |j: int| p.last().1).push(c));
                assert(r =~= r.drop_last().push(c));
            }
        } else {
            let q = p.push((1, c));
            assert(q.drop_last() =~= p);
            assert(expand(q) =~= r) by {
                assert(r =~= r.drop_last().push(c));
            }
        }
    }
}

proof fn lemma_expand_len(rs: Seq<(nat, bool)>)
    ensures
        rs.len() > 0 ==> expand(rs).len() == expand(rs.drop_last()).len() + rs.last().0,
{
}

/// The text of runs leaves their cells after those read before.
proof fn lemma_fold_runs(st: Decoding, rs: Seq<(nat, bool)>, w: nat, h: nat)
    requires
        st.err is None,
        st.pending is None,
        forall|i: int| 0 <= i < rs.len() ==> 1 <= (#[trigger] rs[i]).0 <= u32::MAX,
        st.cur.len() + expand(rs).len() <= w,
    ensures
        decode_fold(st, runs_text(rs), w, h) == (Decoding {
            rows: st.rows,
            cur: st.cur + expand(rs),
            runs: st.runs || rs.len() > 0,
            pending: None,
            err: None,
        }),
    decreases rs.len(),
{
    if rs.len() == 0 {
        assert(st.cur + expand(rs) =~= st.cur);
    } else {
        let d = rs.drop_last();
        let (n, b) = rs.last();
        lemma_expand_len(rs);
        lemma_fold_runs(st, d, w, h);
        lemma_fold_append(st, runs_text(d), run_text(n, b), w, h);
        let s1 = decode_fold(st, runs_text(d), w, h);
        if n == 1 {
            lemma_fold_one(s1, cell_char(b), w, h);
        } else {
            lemma_fold_dec(s1, n, w, h);
            assert(dec(n).push(cell_char(b)) =~= dec(n) + seq![cell_char(b)]);
            lemma_fold_append(s1, dec(n), seq![cell_char(b)], w, h);
            lemma_fold_one(decode_fold(s1, dec(n), w, h), cell_char(b), w, h);
        }
        assert(st.cur + expand(d) + Seq::new(n, |j: int| cell_char(b) == 'o') =~= st.cur + expand(rs));
    }
}

proof fn lemma_runs_text_chars(rs: Seq<(nat, bool)>)
    requires
        forall|i: int| 0 <= i < rs.len() ==> (#[trigger] rs[i]).0 >= 1,
    ensures
        forall|i: int| 0 <= i < runs_text(rs).len() ==> data_char(#[trigger] runs_text(rs)[i]) && runs_text(rs)[i] != '$',
        rs.len() > 0 ==> runs_text(rs).len() > 0 && runs_text(rs).last() == cell_char(rs.last().1),
    decreases rs.len(),
{
    if rs.len() > 0 {
        lemma_runs_text_chars(rs.drop_last());
        let (n, b) = rs.last();
        lemma_dec_digits(n);
        let t = run_text(n, b);
        assert forall|i: int| 0 <= i < t.len() implies data_char(#[trigger] t[i]) && t[i] != '$' by {
            if n != 1 && i < dec(n).len() {
                assert(is_digit(dec(n)[i]));
            }
        }
        let all = runs_text(rs);
        let pre = runs_text(rs.drop_last());
        assert forall|i: int| 0 <= i < all.len() implies data_char(#[trigger] all[i]) && all[i] != '$' by {
            if i < pre.len() {
                assert(all[i] == pre[i]);
            } else {
                assert(all[i] == t[i - pre.len()]);
            }
        }
    }
}

/// What is known of the encoding of a row.
proof fn lemma_enc_row(r: Seq<bool>)
    requires
        r.len() <= u32::MAX,
    ensures
        enc_row(r).len() == 0 <==> !row_alive(r),
        forall|i: int| 0 <= i < enc_row(r).len() ==> data_char(#[trigger] enc_row(r)[i]) && enc_row(r)[i] != '$',
        enc_row(r).len() > 0 ==> enc_row(r).last() == 'o',
{
    let rs = runs(r);
    lemma_runs(r);
    let kept = if rs.len() > 0 && !rs.last().1 {
        rs.drop_last()
    } else {
        rs
    };
    assert(forall|i: int| 0 <= i < kept.len() ==> kept[i] == rs[i]);
    lemma_runs_text_chars(kept);
    lemma_expand_len(rs);
    if kept.len() > 0 {
        // the last kept run is alive: it is the last run, or the one before a dead last run
        assert(kept.last().1);
        // so the row has a live cell inside that run
        let start = expand(kept.drop_last()).len();
        lemma_expand_len(kept);
        lemma_expand_prefix(rs, kept.len() as int);
        assert(expand(kept) == expand(kept.drop_last()) + Seq::new(kept.last().0, |j: int| kept.last().1));
        assert(r[start as int] == expand(kept)[start as int]);
    } else {
        assert forall|j: int| 0 <= j < r.len() implies !r[j] by {
            if rs.len() > 0 {
                assert(rs.drop_last() =~= Seq::<(nat, bool)>::empty());
                assert(expand(rs) =~= Seq::new(rs.last().0, |j: int| rs.last().1));
            }
        }
    }
}

/// The cells of the first `k` runs start the cells of all of them.
proof fn lemma_expand_prefix(rs: Seq<(nat, bool)>, k: int)
    requires
        0 <= k <= rs.len(),
    ensures
        expand(rs.subrange(0, k)).len() <= expand(rs).len(),
        forall|j: int| 0 <= j < expand(rs.subrange(0, k)).len() ==> #[trigger] expand(rs.subrange(0, k))[j] == expand(rs)[j],
    decreases rs.len(),
{
    if k == rs.len() {
        assert(rs.subrange(0, k) =~= rs);
    } else {
        assert(rs.drop_last().subrange(0, k) =~= rs.subrange(0, k));
        lemma_expand_prefix(rs.drop_last(), k);
    }
}

proof fn lemma_run_counts(rs: Seq<(nat, bool)>)
    ensures
        forall|i: int| 0 <= i < rs.len() ==> (#[trigger] rs[i]).0 <= expand(rs).len(),
    decreases rs.len(),
{
    if rs.len() > 0 {
        lemma_run_counts(rs.drop_last());
        assert forall|i: int| 0 <= i < rs.len() implies (#[trigger] rs[i]).0 <= expand(rs).len() by {
            if i < rs.len() - 1 {
                assert(rs[i] == rs.drop_last()[i]);
            }
        }
    }
}

/// Reading the encoding of a row with a live cell leaves a row that, filled
/// up with dead cells, is that row.
proof fn lemma_fold_row(st: Decoding, r: Seq<bool>, w: nat, h: nat)
    requires
        st.err is None,
        st.pending is None,
        st.cur.len() == 0,
        r.len() == w,
        w <= u32::MAX,
        row_alive(r),
    ensures
        ({
            let s2 = decode_fold(st, enc_row(r), w, h);
            &&& s2.err is None
            &&& s2.rows == st.rows
            &&& s2.runs
            &&& s2.pending is None
            &&& s2.cur.len() <= w
            &&& pad(s2.cur, w) == r
        }),
{
    let rs = runs(r);
    lemma_runs(r);
    lemma_enc_row(r);
    lemma_run_counts(rs);
    let kept = if rs.len() > 0 && !rs.last().1 {
        rs.drop_last()
    } else {
        rs
    };
    assert(kept == rs.subrange(0, kept.len() as int));
    lemma_expand_prefix(rs, kept.len() as int);
    assert forall|i: int| 0 <= i < kept.len() implies 1 <= (#[trigger] kept[i]).0 <= u32::MAX by {
        assert(kept[i] == rs[i]);
    }
    lemma_fold_runs(st, kept, w, h);
    assert(st.cur + expand(kept) =~= expand(kept));
    if kept.len() == rs.len() {
        assert(kept =~= rs);
        assert(pad(expand(kept), w) =~= r);
    } else {
        lemma_expand_len(rs);
        assert(expand(rs) == expand(kept) + Seq::new(rs.last().0, |j: int| rs.last().1));
        assert(pad(expand(kept), w) =~= r);
    }
}

proof fn lemma_join_push(s: Seq<Seq<char>>, l: Seq<char>, sep: char)
    requires
        s.len() >= 1,
    ensures
        join_with(s.push(l), sep) == join_with(s, sep).push(sep) + l,
{
    assert(s.push(l).drop_last() =~= s);
}

proof fn lemma_join_extend_last(s: Seq<Seq<char>>, x: Seq<char>, sep: char)
    requires
        s.len() >= 1,
    ensures
        join_with(s.update(s.len() - 1, s.last() + x), sep) == join_with(s, sep) + x,
{
    let u = s.update(s.len() - 1, s.last() + x);
    if s.len() == 1 {
        assert(u[0] == s[0] + x);
    } else {
        assert(u.drop_last() =~= s.drop_last());
        assert(join_with(s.drop_last(), sep).push(sep) + (s.last() + x) =~= join_with(s.drop_last(), sep).push(sep) + s.last() + x);
    }
}

proof fn lemma_join_chars(s: Seq<Seq<char>>, sep: char, p: spec_fn(char) -> bool)
    requires
        p(sep),
        forall|i: int, j: int| 0 <= i < s.len() && 0 <= j < s[i].len() ==> p(#[trigger] s[i][j]),
    ensures
        forall|j: int| 0 <= j < join_with(s, sep).len() ==> p(#[trigger] join_with(s, sep)[j]),
    decreases s.len(),
{
    if s.len() == 1 {
        assert forall|j: int| 0 <= j < join_with(s, sep).len() implies p(#[trigger] join_with(s, sep)[j]) by {
            assert(p(s[0][j]));
        }
    } else if s.len() > 1 {
        lemma_join_chars(s.drop_last(), sep, p);
        let a = join_with(s.drop_last(), sep);
        assert forall|j: int| 0 <= j < join_with(s, sep).len() implies p(#[trigger] join_with(s, sep)[j]) by {
            if j < a.len() {
                assert(join_with(s, sep)[j] == a[j]);
                assert(s.drop_last()[0] == s[0]);
            } else if j > a.len() {
                assert(join_with(s, sep)[j] == s.last()[j - a.len() - 1]);
                assert(p(s[s.len() - 1][j - a.len() - 1]));
            }
        }
    }
}

pub open spec fn enc_rows(g: Seq<Seq<bool>>) -> Seq<Seq<char>> {
    g.map_values(|r: Seq<bool>| enc_row(r))
}

/// After the first `n` rows: the decoder, run on the lines written so far,
/// holds every row before the last one with a live cell, and that row is
/// being read; the rows after it are empty.
spec fn prefix_inv(g: Seq<Seq<bool>>, n: int) -> bool {
    let w = g[0].len();
    let h = g.len();
    let (out, k) = collapse_state(enc_rows(g).subrange(0, n));
    let t = join_with(out, '$');
    let st = decode_fold(start(), t, w, h);
    &&& k <= n
    &&& forall|i: int| n - k <= i < n ==> !row_alive(#[trigger] g[i])
    &&& forall|i: int, j: int| 0 <= i < out.len() && 0 <= j < out[i].len() ==> data_char(#[trigger] out[i][j])
    &&& out.len() == 0 ==> k == n && t.len() == 0
    &&& out.len() > 0 ==> {
        &&& k < n
        &&& out.last().len() > 0
        &&& out.last().last() == 'o'
        &&& st.err is None
        &&& st.rows == g.subrange(0, n - k - 1)
        &&& st.runs
        &&& st.pending is None
        &&& st.cur.len() <= w
        &&& pad(st.cur, w) == g[n - k - 1]
    }
}

spec fn board_within(g: Seq<Seq<bool>>) -> bool {
    is_board(g) && g.len() <= u32::MAX && g[0].len() <= u32::MAX
}

proof fn lemma_encode_prefix(g: Seq<Seq<bool>>, n: int)
    requires
        board_within(g),
        0 <= n <= g.len(),
    ensures
        prefix_inv(g, n),
    decreases n,
{
    let e = enc_rows(g);
    if n == 0 {
        assert(e.subrange(0, 0) =~= Seq::<Seq<char>>::empty());
    } else {
        lemma_encode_prefix(g, n - 1);
        assert(e.subrange(0, n).drop_last() =~= e.subrange(0, n - 1));
        let (out, k) = collapse_state(e.subrange(0, n - 1));
        let l = e[n - 1];
        assert(e.subrange(0, n).last() == l);
        assert(g[n - 1].len() == g[0].len());
        lemma_enc_row(g[n - 1]);
        if l.len() == 0 {
        } else if out.len() == 0 {
            lemma_step_first(g, n);
        } else {
            lemma_step_next(g, n);
        }
    }
}

/// The first row with a live cell, after `k` empty rows.
proof fn lemma_step_first(g: Seq<Seq<bool>>, n: int)
    requires
        board_within(g),
        1 <= n <= g.len(),
        prefix_inv(g, n - 1),
        collapse_state(enc_rows(g).subrange(0, n - 1)).0.len() == 0,
        row_alive(g[n - 1]),
    ensures
        prefix_inv(g, n),
{
    let w = g[0].len();
    let h = g.len();
    let e = enc_rows(g);
    assert(e.subrange(0, n).drop_last() =~= e.subrange(0, n - 1));
    let (out, k) = collapse_state(e.subrange(0, n - 1));
    let l = e[n - 1];
    assert(e.subrange(0, n).last() == l);
    assert(g[n - 1].len() == w);
    lemma_enc_row(g[n - 1]);
    let out2 = collapse_state(e.subrange(0, n)).0;
    let t2 = join_with(out2, '$');
    if k > 0 {
        lemma_dec_digits(k);
        assert(out2 =~= seq![dec(k), l]);
        assert(seq![dec(k)].push(l) =~= seq![dec(k), l]);
        lemma_join_push(seq![dec(k)], l, '$');
        assert(t2 == dec(k).push('$') + l);
        lemma_fold_dec(start(), k, w, h);
        let s1 = decode_fold(start(), dec(k), w, h);
        lemma_fold_append(start(), dec(k), seq!['$'], w, h);
        lemma_fold_one(s1, '$', w, h);
        let s2 = decode_fold(start(), dec(k).push('$'), w, h);
        assert(dec(k).push('$') =~= dec(k) + seq!['$']);
        assert(group_rows(s1, w) =~= Seq::new(k, |i: int| blank(w)));
        assert(s2.rows =~= g.subrange(0, n - 1)) by {
            assert forall|i: int| 0 <= i < n - 1 implies #[trigger] g[i] =~= blank(w) by {
                assert(!row_alive(g[i]));
                assert(g[i].len() == w);
            }
        }
        lemma_fold_append(start(), dec(k).push('$'), l, w, h);
        lemma_fold_row(s2, g[n - 1], w, h);
        assert forall|i: int, j: int| 0 <= i < out2.len() && 0 <= j < out2[i].len() implies data_char(#[trigger] out2[i][j]) by {
            if i == 0 {
                assert(is_digit(dec(k)[j]));
            } else {
                assert(out2[i] == l);
            }
        }
    } else {
        assert(out2 =~= seq![l]);
        assert(t2 == l);
        assert(start().rows =~= g.subrange(0, n - 1));
        lemma_fold_row(start(), g[n - 1], w, h);
        assert forall|i: int, j: int| 0 <= i < out2.len() && 0 <= j < out2[i].len() implies data_char(#[trigger] out2[i][j]) by {
            assert(out2[i] == l);
        }
    }
}

/// A row with a live cell after an earlier one and `k` empty rows.
proof fn lemma_step_next(g: Seq<Seq<bool>>, n: int)
    requires
        board_within(g),
        1 <= n <= g.len(),
        prefix_inv(g, n - 1),
        collapse_state(enc_rows(g).subrange(0, n - 1)).0.len() > 0,
        row_alive(g[n - 1]),
    ensures
        prefix_inv(g, n),
{
    let w = g[0].len();
    let h = g.len();
    let e = enc_rows(g);
    assert(e.subrange(0, n).drop_last() =~= e.subrange(0, n - 1));
    let (out, k) = collapse_state(e.subrange(0, n - 1));
    let l = e[n - 1];
    assert(e.subrange(0, n).last() == l);
    assert(g[n - 1].len() == w);
    lemma_enc_row(g[n - 1]);
    let t = join_with(out, '$');
    let st = decode_fold(start(), t, w, h);
    let x: Seq<char> = if k > 0 {
        dec(k + 1)
    } else {
        Seq::empty()
    };
    let out2 = collapse_state(e.subrange(0, n)).0;
    let t2 = join_with(out2, '$');
    let u = out.update(out.len() - 1, out.last() + x);
    assert(out2 == u.push(l));
    lemma_join_extend_last(out, x, '$');
    lemma_join_push(u, l, '$');
    assert(t2 =~= t + (x.push('$') + l));
    assert(collapse_state(e.subrange(0, n)).1 == 0);
    lemma_fold_append(start(), t, x.push('$') + l, w, h);
    lemma_fold_append(st, x.push('$'), l, w, h);
    assert(x.push('$') =~= x + seq!['$']);
    lemma_fold_append(st, x, seq!['$'], w, h);
    let s1 = decode_fold(st, x, w, h);
    if k > 0 {
        lemma_dec_digits(k + 1);
        lemma_fold_dec(st, k + 1, w, h);
    } else {
        assert(s1 == st);
    }
    lemma_fold_one(s1, '$', w, h);
    let s2 = decode_step(s1, '$', w, h);
    let prev = n - 1 - k - 1;
    assert(group_rows(s1, w) =~= seq![pad(st.cur, w)] + Seq::new(k, |i: int| blank(w)));
    assert(s2.rows =~= g.subrange(0, n - 1)) by {
        assert forall|i: int| 0 <= i < n - 1 implies #[trigger] s2.rows[i] == g[i] by {
            if i > prev {
                assert(!row_alive(g[i]));
                assert(g[i] =~= blank(w));
            }
        }
    }
    lemma_fold_row(s2, g[n - 1], w, h);
    assert(decode_fold(st, x.push('$'), w, h) == s2);
    assert(decode_fold(start(), t2, w, h) == decode_fold(s2, l, w, h));
    assert forall|i: int, j: int| 0 <= i < out2.len() && 0 <= j < out2[i].len() implies data_char(#[trigger] out2[i][j]) by {
        if i == out2.len() - 1 {
            assert(out2[i] == l);
        } else if i == out.len() - 1 {
            assert(out2[i] == out.last() + x);
            if j >= out.last().len() {
                assert(is_digit(dec(k + 1)[j - out.last().len()]));
            } else {
                assert(out2[i][j] == out[i][j]);
            }
        } else {
            assert(out2[i] == out[i]);
        }
    }
}

proof fn lemma_strip_ws_none(s: Seq<char>)
    requires
        forall|i: int| 0 <= i < s.len() ==> !is_ws(#[trigger] s[i]),
    ensures
        strip_ws(s) == s,
    decreases s.len(),
{
    if s.len() > 0 {
        lemma_strip_ws_none(s.drop_last());
        assert(s.drop_last().push(s.last()) =~= s);
    }
}

/// Decoding the data section that encodes a board, at the board's own size,
/// gives the board back.
pub proof fn lemma_decode_encode(g: Seq<Seq<bool>>)
    requires
        is_board(g),
        g.len() <= u32::MAX,
        g[0].len() <= u32::MAX,
    ensures
        strip_ws(encode_data(g)) == encode_data(g),
        data_ok(encode_data(g)),
        decode_board(encode_data(g), g[0].len(), g.len()) == Ok::<Seq<Seq<bool>>, crate::error::LifeError>(g),
{
    let w = g[0].len();
    let h = g.len();
    let n = h as int;
    lemma_encode_prefix(g, n);
    assert(enc_rows(g).subrange(0, n) =~= enc_rows(g));
    let (out, k) = collapse_state(enc_rows(g));
    let t = join_with(out, '$');
    let d = encode_data(g);
    assert(d == t.push('!'));
    lemma_join_chars(out, '$', |c: char| data_char(c));
    assert forall|i: int| 0 <= i < d.len() implies !is_ws(#[trigger] d[i]) by {
        if i < t.len() {
            assert(data_char(t[i]));
        }
    }
    lemma_strip_ws_none(d);
    assert(d.drop_last() =~= t);
    if out.len() > 0 {
        assert(t.len() > 0 && t.last() == 'o') by {
            if out.len() == 1 {
            } else {
                assert(t == join_with(out.drop_last(), '$').push('$') + out.last());
            }
        }
    }
    assert forall|i: int| 0 <= i < d.len() - 1 implies data_char(#[trigger] d[i]) by {
        assert(d[i] == t[i]);
    }
    let st = decode_fold(start(), t, w, h);
    let fin = decode_rows(t, w, h);
    if out.len() == 0 {
        assert(t =~= Seq::<char>::empty());
        assert(st == start());
        assert(fin.rows =~= Seq::<Seq<bool>>::empty());
        assert(fin.rows + Seq::new((h - fin.rows.len()) as nat, |i: int| blank(w)) =~= g) by {
            assert forall|i: int| 0 <= i < h implies #[trigger] g[i] =~= blank(w) by {
                assert(!row_alive(g[i]));
                assert(g[i].len() == w);
            }
        }
    } else {
        assert(group_rows(st, w) =~= seq![pad(st.cur, w)]);
        let full = fin.rows + Seq::new((h - fin.rows.len()) as nat, |i: int| blank(w));
        assert(full =~= g) by {
            assert forall|i: int| 0 <= i < h implies #[trigger] full[i] == g[i] by {
                if i >= n - k {
                    assert(!row_alive(g[i]));
                    assert(g[i].len() == w);
                    assert(g[i] =~= blank(w));
                }
            }
        }
    }
}

proof fn lemma_digits_end_at(s: Seq<char>, i: int, r: int)
    requires
        0 <= i <= r <= s.len(),
        forall|k: int| i <= k < r ==> is_digit(s[k]),
        r < s.len() ==> !is_digit(s[r]),
    ensures
        digits_end(s, i) == r,
    decreases r - i,
{
    if i < r {
        lemma_digits_end_at(s, i + 1, r);
    }
}

/// The header that export writes reads back as the same sizes and rule.
pub proof fn lemma_header_scan(x: u32, y: u32)
    ensures
        ({
            let s = header_text(x, y, Some("B3/S23"@));
            &&& trim(s) == s
            &&& header_spec(s) == Ok::<(nat, nat, Option<Seq<char>>), crate::error::LifeError>(
                (x as nat, y as nat, Some("B3/S23"@)),
            )
            &&& s.len() > 0
            &&& s[0] == 'x'
            &&& s.last() == '3'
            &&& forall|i: int| 0 <= i < s.len() ==> #[trigger] s[i] != '\n'
        }),
{
    reveal_strlit("x = ");
    reveal_strlit(", y = ");
    reveal_strlit(", rule = ");
    reveal_strlit("B3/S23");
    let xs = dec(x as nat);
    let ys = dec(y as nat);
    lemma_dec_digits(x as nat);
    lemma_dec_digits(y as nat);
    let lead = "x = "@;
    let mid = ", y = "@;
    let q = ", rule = "@ + "B3/S23"@;
    let s1 = lead + xs;
    let s2 = s1 + mid;
    let s3 = s2 + ys;
    let s = s3 + q;
    assert(s == header_text(x, y, Some("B3/S23"@)));
    let lx = xs.len() as int;
    let ly = ys.len() as int;
    let b = 10 + lx + ly;
    assert(s.len() == b + 15);
    assert(s[0] == 'x' && s[1] == ' ' && s[2] == '=' && s[3] == ' ');
    assert forall|k: int| 4 <= k < 4 + lx implies s[k] == xs[k - 4] && is_digit(#[trigger] s[k]) by {
        assert(s[k] == s1[k]);
    }
    assert(s[4 + lx] == ',' && s[5 + lx] == ' ' && s[6 + lx] == 'y') by {
        assert(s[4 + lx] == s2[4 + lx]);
        assert(s[5 + lx] == s2[5 + lx]);
        assert(s[6 + lx] == s2[6 + lx]);
    }
    assert(s[7 + lx] == ' ' && s[8 + lx] == '=' && s[9 + lx] == ' ') by {
        assert(s[7 + lx] == s2[7 + lx]);
        assert(s[8 + lx] == s2[8 + lx]);
        assert(s[9 + lx] == s2[9 + lx]);
    }
    assert forall|k: int| 10 + lx <= k < b implies s[k] == ys[k - 10 - lx] && is_digit(#[trigger] s[k]) by {
        assert(s[k] == s3[k]);
    }
    assert forall|k: int| b <= k < b + 15 implies #[trigger] s[k] == q[k - b] by {}
    assert(s[b] == ',' && s[b + 1] == ' ' && s[b + 2] == 'r' && s[b + 3] == 'u' && s[b + 4] == 'l'
        && s[b + 5] == 'e' && s[b + 6] == ' ' && s[b + 7] == '=' && s[b + 8] == ' ');
    assert(s[b + 9] == 'B' && s[b + 10] == '3' && s[b + 11] == '/' && s[b + 12] == 'S' && s[b + 13]
        == '2' && s[b + 14] == '3');
    assert forall|i: int| 0 <= i < s.len() implies #[trigger] s[i] != '\n' by {
        if 4 <= i < 4 + lx {
            assert(is_digit(s[i]));
        } else if 10 + lx <= i < b {
            assert(is_digit(s[i]));
        }
    }
    // the scan, sign by sign
    lemma_ws_end_at(s, 1, 2);
    lemma_ws_end_at(s, 3, 4);
    lemma_digits_end_at(s, 4, 4 + lx);
    lemma_ws_end_at(s, 4 + lx, 4 + lx);
    lemma_ws_end_at(s, 5 + lx, 6 + lx);
    lemma_ws_end_at(s, 7 + lx, 8 + lx);
    lemma_ws_end_at(s, 9 + lx, 10 + lx);
    lemma_digits_end_at(s, 10 + lx, b);
    lemma_ws_end_at(s, b, b);
    lemma_ws_end_at(s, b + 1, b + 2);
    lemma_ws_end_at(s, b + 6, b + 7);
    lemma_ws_end_at(s, b + 8, b + 9);
    assert(s.subrange(b + 2, b + 6) =~= seq!['r', 'u', 'l', 'e']);
    assert(s.subrange(4, 4 + lx) =~= xs);
    assert(s.subrange(10 + lx, b) =~= ys);
    assert(s.subrange(b + 9, s.len() as int) =~= "B3/S23"@);
    assert forall|k: int| b + 9 <= k < s.len() implies !is_ws(s[k]) by {}
    lemma_ws_end_at(s, 0, 0);
    lemma_ws_back_at(s, s.len() as int, s.len() as int);
    assert(s.subrange(0, s.len() as int) =~= s);
}

/// Each line without a carriage return at its end.
pub open spec fn strip_all(cs: Seq<Seq<char>>) -> Seq<Seq<char>> {
    cs.map_values(|l: Seq<char>| strip_cr(l))
}

pub open spec fn no_newline(l: Seq<char>) -> bool {
    forall|j: int| 0 <= j < l.len() ==> l[j] != '\n'
}

proof fn lemma_prefixed_fold(d: Seq<Seq<char>>, c: Seq<char>, cs: Seq<Seq<char>>)
    requires
        forall|i: int| 0 <= i < cs.len() ==> no_newline(#[trigger] cs[i]),
    ensures
        line_fold((d, c), prefixed(cs) + seq!['\n']) == (d.push(strip_cr(c)) + strip_all(cs), Seq::<
            char,
        >::empty()),
    decreases cs.len(),
{
    if cs.len() == 0 {
        assert(prefixed(cs) + seq!['\n'] =~= seq!['\n']);
        lemma_line_fold_newline((d, c));
        assert(d.push(strip_cr(c)) + strip_all(cs) =~= d.push(strip_cr(c)));
    } else {
        let cs0 = cs.drop_last();
        let l = cs.last();
        assert forall|i: int| 0 <= i < cs0.len() implies no_newline(#[trigger] cs0[i]) by {
            assert(cs0[i] == cs[i]);
        }
        lemma_prefixed_fold(d, c, cs0);
        let mid = (d.push(strip_cr(c)) + strip_all(cs0), Seq::<char>::empty());
        assert(prefixed(cs) + seq!['\n'] =~= (prefixed(cs0) + seq!['\n']) + (l + seq!['\n']));
        lemma_line_fold_append((d, c), prefixed(cs0) + seq!['\n'], l + seq!['\n']);
        lemma_line_fold_append(mid, l, seq!['\n']);
        assert(no_newline(cs[cs.len() - 1]));
        lemma_line_fold_plain(mid, l);
        assert(Seq::<char>::empty() + l =~= l);
        lemma_line_fold_newline((mid.0, l));
        assert(mid.0.push(strip_cr(l)) =~= d.push(strip_cr(c)) + strip_all(cs));
    }
}

/// The lines of exported text: the banner, the comments, the header and the
/// data.
proof fn lemma_export_lines(p: Pattern)
    requires
        forall|i: int| 0 <= i < p.comments.len() ==> no_newline(#[trigger] p.comments[i]),
        no_newline(header_text(p.x, p.y, p.rule)),
        header_text(p.x, p.y, p.rule).len() > 0,
        header_text(p.x, p.y, p.rule).last() != '\r',
        no_newline(p.data),
        p.data.len() > 0,
    ensures
        split_lines(export_text(p)) == seq![banner()] + strip_all(p.comments) + seq![
            header_text(p.x, p.y, p.rule),
            p.data,
        ],
{
    reveal_strlit("#C Generated by ALife");
    let hd = header_text(p.x, p.y, p.rule);
    let e0 = (Seq::<Seq<char>>::empty(), Seq::<char>::empty());
    let t1 = banner();
    let t2 = prefixed(p.comments) + seq!['\n'];
    let t3 = hd + seq!['\n'];
    let t = export_text(p);
    assert(t =~= t1 + t2 + t3 + p.data);
    assert(no_newline(t1));
    lemma_line_fold_append(e0, t1 + t2 + t3, p.data);
    lemma_line_fold_append(e0, t1 + t2, t3);
    lemma_line_fold_append(e0, t1, t2);
    lemma_line_fold_plain(e0, t1);
    assert(e0.1 + t1 =~= t1);
    lemma_prefixed_fold(e0.0, t1, p.comments);
    let d1 = e0.0.push(strip_cr(t1)) + strip_all(p.comments);
    assert(strip_cr(t1) == t1);
    lemma_line_fold_append((d1, Seq::<char>::empty()), hd, seq!['\n']);
    lemma_line_fold_plain((d1, Seq::<char>::empty()), hd);
    assert(Seq::<char>::empty() + hd =~= hd);
    lemma_line_fold_newline((d1, hd));
    lemma_line_fold_plain((d1.push(hd), Seq::<char>::empty()), p.data);
    assert(Seq::<char>::empty() + p.data =~= p.data);
    assert(d1.push(hd).push(p.data) =~= seq![banner()] + strip_all(p.comments) + seq![hd, p.data]);
}

proof fn lemma_filter_append(a: Seq<Seq<char>>, b: Seq<Seq<char>>)
    ensures
        other_lines(a + b) == other_lines(a) + other_lines(b),
        comment_lines(a + b) == comment_lines(a) + comment_lines(b),
    decreases b.len(),
{
    if b.len() == 0 {
        assert(a + b =~= a);
        assert(other_lines(a) + other_lines(b) =~= other_lines(a));
        assert(comment_lines(a) + comment_lines(b) =~= comment_lines(a));
    } else {
        assert((a + b).drop_last() =~= a + b.drop_last());
        lemma_filter_append(a, b.drop_last());
        assert(other_lines(a) + other_lines(b.drop_last()).push(b.last()) =~= (other_lines(a)
            + other_lines(b.drop_last())).push(b.last()));
        assert(comment_lines(a) + comment_lines(b.drop_last()).push(b.last()) =~= (comment_lines(a)
            + comment_lines(b.drop_last())).push(b.last()));
    }
}

proof fn lemma_all_comments(cs: Seq<Seq<char>>)
    requires
        forall|i: int| 0 <= i < cs.len() ==> is_comment(#[trigger] cs[i]),
    ensures
        other_lines(cs) == Seq::<Seq<char>>::empty(),
        comment_lines(cs) == cs,
    decreases cs.len(),
{
    if cs.len() > 0 {
        assert forall|i: int| 0 <= i < cs.drop_last().len() implies is_comment(#[trigger] cs.drop_last()[i]) by {
            assert(cs.drop_last()[i] == cs[i]);
        }
        lemma_all_comments(cs.drop_last());
        assert(is_comment(cs[cs.len() - 1]));
        assert(cs.drop_last().push(cs.last()) =~= cs);
    }
}

proof fn lemma_strip_cr_comment(c: Seq<char>)
    requires
        is_comment(c),
    ensures
        is_comment(strip_cr(c)),
{
    crate::text::lemma_ws_end(c, 0);
    let p = ws_end(c, 0);
    if c.len() > 0 && c.last() == '\r' {
        let d = c.drop_last();
        assert(p < c.len() - 1);
        assert forall|k: int| 0 <= k < p implies is_ws(d[k]) by {
            assert(d[k] == c[k]);
        }
        lemma_ws_end_at(d, 0, p);
        assert(trim_start(d)[0] == d[p]);
        assert(trim_start(c)[0] == c[p]);
    }
}

/// The conditions under which comment lines survive export and parsing.
pub open spec fn comment_ok(c: Seq<char>) -> bool {
    is_comment(c) && no_newline(c)
}

/// The lines of exported text that are not comments are the header and the
/// data; the comment lines are the banner and the comments.
proof fn lemma_export_split(p: Pattern)
    requires
        forall|i: int| 0 <= i < p.comments.len() ==> comment_ok(#[trigger] p.comments[i]),
        no_newline(header_text(p.x, p.y, p.rule)),
        header_text(p.x, p.y, p.rule).len() > 0,
        header_text(p.x, p.y, p.rule)[0] == 'x',
        header_text(p.x, p.y, p.rule).last() != '\r',
        no_newline(p.data),
        p.data.len() > 0,
        p.data[0] == '!' || data_char(p.data[0]),
    ensures
        other_lines(split_lines(export_text(p))) == seq![header_text(p.x, p.y, p.rule), p.data],
        comment_lines(split_lines(export_text(p))) == seq![banner()] + strip_all(p.comments),
{
    reveal_strlit("#C Generated by ALife");
    let hd = header_text(p.x, p.y, p.rule);
    let data = p.data;
    assert forall|i: int| 0 <= i < p.comments.len() implies no_newline(#[trigger] p.comments[i]) by {
        assert(comment_ok(p.comments[i]));
    }
    lemma_export_lines(p);
    let ls = split_lines(export_text(p));
    let cs2 = seq![banner()] + strip_all(p.comments);
    assert(ls == cs2 + seq![hd, data]);
    assert(is_comment(banner())) by {
        lemma_ws_end_at(banner(), 0, 0);
    }
    assert forall|i: int| 0 <= i < cs2.len() implies is_comment(#[trigger] cs2[i]) by {
        if i > 0 {
            assert(cs2[i] == strip_cr(p.comments[i - 1]));
            assert(comment_ok(p.comments[i - 1]));
            lemma_strip_cr_comment(p.comments[i - 1]);
        }
    }
    lemma_all_comments(cs2);
    assert(!is_comment(hd)) by {
        lemma_ws_end_at(hd, 0, 0);
    }
    assert(!is_comment(data)) by {
        lemma_ws_end_at(data, 0, 0);
    }
    lemma_filter_append(cs2, seq![hd, data]);
    assert(seq![hd, data].drop_last() =~= seq![hd]);
    assert(seq![hd].drop_last() =~= Seq::<Seq<char>>::empty());
    assert(other_lines(Seq::<Seq<char>>::empty()) == Seq::<Seq<char>>::empty());
    assert(comment_lines(Seq::<Seq<char>>::empty()) == Seq::<Seq<char>>::empty());
    assert(seq![hd].last() == hd);
    assert(seq![hd, data].last() == data);
    assert(other_lines(seq![hd]) =~= seq![hd]);
    assert(other_lines(seq![hd, data]) =~= seq![hd, data]);
    assert(comment_lines(seq![hd]) =~= Seq::<Seq<char>>::empty());
    assert(comment_lines(seq![hd, data]) =~= Seq::<Seq<char>>::empty());
    assert(other_lines(ls) =~= seq![hd, data]);
    assert(comment_lines(ls) =~= cs2);
}

/// Exported text parses back: into the banner and the comments, the sizes
/// and rule of the cropped board, and its data.
pub proof fn lemma_parse_export(g: Seq<Seq<bool>>, comments: Seq<Seq<char>>)
    requires
        is_board(g),
        g.len() <= u32::MAX,
        g[0].len() <= u32::MAX,
        forall|i: int| 0 <= i < comments.len() ==> comment_ok(#[trigger] comments[i]),
    ensures
        ({
            let p = encode_pattern(g, comments);
            &&& parse_spec(export_text(p)) == Ok::<Pattern, crate::error::LifeError>(Pattern {
                comments: seq![banner()] + strip_all(comments),
                x: p.x,
                y: p.y,
                rule: p.rule,
                data: p.data,
            })
            &&& file_spec(export_text(p)) == Ok::<Seq<Seq<bool>>, crate::error::LifeError>(crop(g))
        }),
{
    lemma_crop_idempotent(g);
    let c = crop(g);
    let p = encode_pattern(g, comments);
    assert(p.x as nat == c[0].len() && p.y as nat == c.len());
    lemma_header_scan(p.x, p.y);
    let hd = header_text(p.x, p.y, p.rule);
    lemma_decode_encode(c);
    let data = p.data;
    assert(data.last() == '!');
    assert forall|j: int| 0 <= j < data.len() implies data[j] != '\n' by {
        if j < data.len() - 1 {
            assert(data_char(data[j]));
        }
    }
    assert(data[0] == '!' || data_char(data[0]));
    lemma_export_split(p);
    lemma_parse_spec_of(export_text(p), hd, data, seq![banner()] + strip_all(comments), p.x as nat, p.y as nat, p.rule);
}

/// What `parse_spec` gives for text whose lines are comments, a header line
/// and one data line.
proof fn lemma_parse_spec_of(
    t: Seq<char>,
    hd: Seq<char>,
    data: Seq<char>,
    cs: Seq<Seq<char>>,
    x: nat,
    y: nat,
    rule: Option<Seq<char>>,
)
    requires
        other_lines(split_lines(t)) == seq![hd, data],
        comment_lines(split_lines(t)) == cs,
        trim(hd) == hd,
        header_spec(hd) == Ok::<(nat, nat, Option<Seq<char>>), crate::error::LifeError>((x, y, rule)),
        strip_ws(data) == data,
        data_ok(data),
    ensures
        parse_spec(t) == Ok::<Pattern, crate::error::LifeError>(Pattern {
            comments: cs,
            x: x as u32,
            y: y as u32,
            rule,
            data,
        }),
{
    let others = other_lines(split_lines(t));
    assert(others[0] == hd);
    assert(others.drop_first() =~= seq![data]);
    assert(seq![data].drop_last() =~= Seq::<Seq<char>>::empty());
    assert(concat_all(Seq::<Seq<char>>::empty()) == Seq::<char>::empty());
    assert(concat_all(seq![data]) =~= data);
}

/// Reading RLE text, writing its board back out with its comments, and
/// reading that gives the cropped board: the written text is valid RLE, and
/// its board, cropped, is the first board cropped.
pub proof fn lemma_round_trip(t: Seq<char>)
    requires
        file_spec(t) is Ok,
    ensures
        ({
            let b = file_spec(t)->Ok_0;
            let comments = parse_spec(t)->Ok_0.comments;
            let e = export_text(encode_pattern(b, comments));
            &&& parse_spec(e) is Ok
            &&& file_spec(e) == Ok::<Seq<Seq<bool>>, crate::error::LifeError>(crop(b))
            &&& crop(file_spec(e)->Ok_0) == crop(b)
        }),
{
    let p = parse_spec(t)->Ok_0;
    let b = file_spec(t)->Ok_0;
    crate::rle::lemma_decode_board_shape(p.data, p.x as nat, p.y as nat);
    let ls = split_lines(t);
    lemma_split_lines_no_newline(t);
    lemma_comment_lines_in(ls);
    assert forall|i: int| 0 <= i < p.comments.len() implies comment_ok(#[trigger] p.comments[i]) by {
        let k = choose|k: int| 0 <= k < ls.len() && ls[k] == p.comments[i];
        assert forall|j: int| 0 <= j < p.comments[i].len() implies p.comments[i][j] != '\n' by {
            assert(ls[k][j] != '\n');
        }
    }
    lemma_parse_export(b, p.comments);
    lemma_crop_idempotent(b);
}

/// Each comment line is a line of the text, and a comment.
proof fn lemma_comment_lines_in(ls: Seq<Seq<char>>)
    ensures
        forall|i: int| 0 <= i < comment_lines(ls).len() ==> is_comment(#[trigger] comment_lines(ls)[i])
            && exists|k: int| 0 <= k < ls.len() && ls[k] == comment_lines(ls)[i],
    decreases ls.len(),
{
    if ls.len() > 0 {
        lemma_comment_lines_in(ls.drop_last());
        let cl = comment_lines(ls);
        let c0 = comment_lines(ls.drop_last());
        assert forall|i: int| 0 <= i < cl.len() implies is_comment(#[trigger] cl[i]) && exists|k: int|
            0 <= k < ls.len() && ls[k] == cl[i] by {
            if i < c0.len() {
                assert(cl[i] == c0[i]);
                let k = choose|k: int| 0 <= k < ls.drop_last().len() && ls.drop_last()[k] == c0[i];
                assert(ls[k] == cl[i]);
            } else {
                assert(cl[i] == ls.last());
                assert(ls[ls.len() - 1] == cl[i]);
            }
        }
    }
}

} // verus!
