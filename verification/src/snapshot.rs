use vstd::prelude::*;
use vstd::arithmetic::div_mod::lemma_fundamental_div_mod;
use crate::grid::{GridModel, lemma_decode_bounds};
use crate::universe::{Implementation, Universe};

verus! {

/// Byte values of the plain-text snapshot format: `'\n'`, `' '`, `'\t'`,
/// `'\r'`, `'O'`, `'.'`, `'0'`.
pub const NL: u8 = 10;

pub const SP: u8 = 32;

pub const TAB: u8 = 9;

pub const CR: u8 = 13;

pub const ALIVE_CH: u8 = 79;

pub const DEAD_CH: u8 = 46;

pub const ZERO_CH: u8 = 48;

/// Errors of the snapshot loader: a header field that is not an unsigned
/// decimal number that fits, or declared dimensions that disagree with the
/// requested ones (a header with more or fewer than three fields counts as
/// the latter, as a header of the wrong shape).
#[derive(Clone, Copy, Debug, PartialEq, Eq, Structural)]
pub enum SnapshotError {
    Parse,
    Mismatch,
}

/// A parsed seed: the dense liveness data for the requested dimensions and
/// the cumulative generation count the file declares.
#[derive(Debug)]
pub struct Snapshot {
    pub cells: Vec<bool>,
    pub iterations: u32,
}

pub open spec fn is_ws(b: u8) -> bool {
    b == SP || b == TAB || b == CR
}

pub open spec fn is_digit(b: u8) -> bool {
    ZERO_CH <= b <= ZERO_CH + 9
}

/// Index of the first newline byte of `s`, or `s.len()` if there is none.
pub open spec fn first_nl(s: Seq<u8>) -> nat
    decreases s.len(),
{
    if s.len() == 0 {
        0
    } else if s[0] == NL {
        0
    } else {
        1 + first_nl(s.drop_first())
    }
}

/// Index of the first whitespace byte of `s`, or `s.len()` if there is none.
pub open spec fn first_ws(s: Seq<u8>) -> nat
    decreases s.len(),
{
    if s.len() == 0 {
        0
    } else if is_ws(s[0]) {
        0
    } else {
        1 + first_ws(s.drop_first())
    }
}

/// The lines of `s`: maximal runs between newline bytes, the newline
/// consumed, a final line without one kept.
pub open spec fn spec_lines(s: Seq<u8>) -> Seq<Seq<u8>>
    decreases s.len(),
{
    if s.len() == 0 {
        Seq::empty()
    } else {
        let i = first_nl(s);
        if i >= s.len() {
            seq![s]
        } else {
            seq![s.subrange(0, i as int)] + spec_lines(s.subrange(i as int + 1, s.len() as int))
        }
    }
}

/// The whitespace-separated fields of `s`: maximal nonempty runs of
/// non-whitespace bytes.
pub open spec fn spec_tokens(s: Seq<u8>) -> Seq<Seq<u8>>
    decreases s.len(),
{
    if s.len() == 0 {
        Seq::empty()
    } else if is_ws(s[0]) {
        spec_tokens(s.drop_first())
    } else {
        let i = first_ws(s);
        if i >= s.len() {
            seq![s]
        } else {
            seq![s.subrange(0, i as int)] + spec_tokens(s.subrange(i as int, s.len() as int))
        }
    }
}

/// The decimal digits of `n`, most significant first, without leading
/// zeros (a single `'0'` for zero).
pub open spec fn dec_digits(n: nat) -> Seq<u8>
    decreases n,
{
    if n < 10 {
        seq![(ZERO_CH + n) as u8]
    } else {
        dec_digits(n / 10).push((ZERO_CH + n % 10) as u8)
    }
}

/// Is `s` a nonempty run of decimal digits?
pub open spec fn is_dec(s: Seq<u8>) -> bool {
    s.len() > 0 && forall|j: int| 0 <= j < s.len() ==> is_digit(s[j])
}

/// The value of a run of decimal digits, most significant first.
pub open spec fn dec_val(s: Seq<u8>) -> nat
    decreases s.len(),
{
    if s.len() == 0 {
        0
    } else {
        dec_val(s.drop_last()) * 10 + (s.last() - ZERO_CH) as nat
    }
}

/// The header line of a snapshot: width, height and cumulative generation
/// count as space-separated decimal numbers.
pub open spec fn spec_header(width: nat, height: nat, iterations: nat) -> Seq<u8> {
    dec_digits(width) + seq![SP] + dec_digits(height) + seq![SP] + dec_digits(iterations)
}

/// Row `y` of the character matrix: one byte per cell, `'O'` for alive.
pub open spec fn spec_row(cells: Seq<bool>, w: int, y: int) -> Seq<u8> {
    Seq::new(w as nat, |x: int| if cells[y * w + x] { ALIVE_CH } else { DEAD_CH })
}

/// Rows `y` to `h - 1` of the character matrix, each closed by a newline.
pub open spec fn spec_rows_from(cells: Seq<bool>, w: int, h: int, y: int) -> Seq<u8>
    decreases h - y,
{
    if y < 0 || y >= h {
        Seq::empty()
    } else {
        spec_row(cells, w, y) + seq![NL] + spec_rows_from(cells, w, h, y + 1)
    }
}

/// The whole snapshot text of a grid: header line, then the matrix in
/// row-major order.
pub open spec fn spec_render(g: GridModel, iterations: nat) -> Seq<u8> {
    spec_header(g.width as nat, g.height as nat, iterations) + seq![NL] + spec_rows_from(
        g.cells,
        g.width,
        g.height,
        0,
    )
}

/// Do all fields parse as unsigned decimal numbers that fit in 32 bits?
pub open spec fn fields_numeric(toks: Seq<Seq<u8>>) -> bool {
    forall|j: int|
        0 <= j < toks.len() ==> is_dec(#[trigger] toks[j]) && dec_val(toks[j]) <= u32::MAX
}

/// The dense liveness data read from the row lines for the requested
/// dimensions: a cell is alive exactly where its row exists, is long
/// enough, and holds `'O'` there. Missing or short rows leave cells dead;
/// extra rows and extra columns are ignored.
pub open spec fn spec_grid_from_rows(rows: Seq<Seq<u8>>, w: int, h: int) -> Seq<bool> {
    Seq::new(
        (w * h) as nat,
        |i: int|
            {
                let y = i / w;
                let x = i % w;
                y < rows.len() && x < rows[y].len() && rows[y][x] == ALIVE_CH
            },
    )
}

/// What loading a snapshot for requested dimensions `width` x `height`
/// yields: the liveness data and the declared generation count, or the
/// error the text deserves. Header fields that are not decimal numbers are
/// a parse error; a header without exactly three fields, or with declared
/// dimensions other than the requested ones, is a mismatch.
pub open spec fn spec_parse(width: int, height: int, data: Seq<u8>) -> Result<
    (Seq<bool>, nat),
    SnapshotError,
> {
    let ls = spec_lines(data);
    if ls.len() == 0 {
        Err(SnapshotError::Parse)
    } else {
        let toks = spec_tokens(ls[0]);
        if !fields_numeric(toks) {
            Err(SnapshotError::Parse)
        } else if toks.len() != 3 || dec_val(toks[0]) != width || dec_val(toks[1]) != height {
            Err(SnapshotError::Mismatch)
        } else {
            Ok((spec_grid_from_rows(ls.drop_first(), width, height), dec_val(toks[2])))
        }
    }
}

fn is_ws_u8(b: u8) -> (r: bool)
    ensures
        r == is_ws(b),
{
    b == SP || b == TAB || b == CR
}

/// Splits a byte text into its lines.
#[verifier::loop_isolation(false)]
fn split_lines(data: &Vec<u8>) -> (lines: Vec<Vec<u8>>)
    ensures
        lines@.len() == spec_lines(data@).len(),
        forall|j: int| 0 <= j < lines@.len() ==> lines@[j]@ == spec_lines(data@)[j],
{
    let mut lines: Vec<Vec<u8>> = Vec::new();
    let ghost mut done: Seq<Seq<u8>> = Seq::empty();
    let mut pos: usize = 0;
    proof {
        assert(data@.skip(0) =~= data@);
        assert(done + spec_lines(data@) =~= spec_lines(data@));
    }
    while pos < data.len()
        invariant
            pos <= data@.len(),
            done.len() == lines@.len(),
            forall|j: int| 0 <= j < done.len() ==> done[j] == lines@[j]@,
            spec_lines(data@) == done + spec_lines(data@.skip(pos as int)),
        decreases data@.len() - pos,
    {
        let ghost rem = data@.skip(pos as int);
        let mut cur: Vec<u8> = Vec::new();
        let mut j = pos;
        while j < data.len() && data[j] != NL
            invariant
                pos <= j <= data@.len(),
                cur@ == data@.subrange(pos as int, j as int),
                forall|t: int| pos <= t < j ==> data@[t] != NL,
            decreases data@.len() - j,
        {
            let b = data[j];
            cur.push(b);
            j = j + 1;
        }
        proof {
            assert forall|t: int| 0 <= t < j - pos implies rem[t] != NL by {
                assert(rem[t] == data@[pos + t]);
            }
            if j < data@.len() {
                assert(rem[j - pos] == data@[j as int]);
            }
            lemma_first_nl_is(rem, j - pos);
            assert(cur@ =~= rem.subrange(0, j - pos));
            if j == data@.len() {
                assert(first_nl(rem) >= rem.len());
                assert(spec_lines(rem) == seq![rem]);
                assert(cur@ =~= rem);
                assert(data@.skip(j as int).len() == 0);
                assert(done.push(cur@) + spec_lines(data@.skip(j as int)) =~= done + spec_lines(
                    data@.skip(pos as int),
                ));
            } else {
                assert(spec_lines(rem) == seq![rem.subrange(0, j - pos)] + spec_lines(
                    rem.subrange(j - pos + 1, rem.len() as int),
                ));
                assert(rem.subrange(j - pos + 1, rem.len() as int) =~= data@.skip(j as int + 1));
                assert(done.push(cur@) + spec_lines(data@.skip(j as int + 1)) =~= done
                    + spec_lines(data@.skip(pos as int)));
            }
            done = done.push(cur@);
        }
        lines.push(cur);
        if j < data.len() {
            pos = j + 1;
        } else {
            pos = j;
        }
    }
    proof {
        assert(data@.skip(pos as int).len() == 0);
        assert(spec_lines(data@) =~= done);
    }
    lines
}

/// Splits a line into its whitespace-separated fields.
#[verifier::loop_isolation(false)]
fn split_tokens(line: &Vec<u8>) -> (toks: Vec<Vec<u8>>)
    ensures
        toks@.len() == spec_tokens(line@).len(),
        forall|j: int| 0 <= j < toks@.len() ==> toks@[j]@ == spec_tokens(line@)[j],
{
    let mut toks: Vec<Vec<u8>> = Vec::new();
    let ghost mut done: Seq<Seq<u8>> = Seq::empty();
    let mut pos: usize = 0;
    proof {
        assert(line@.skip(0) =~= line@);
        assert(done + spec_tokens(line@) =~= spec_tokens(line@));
    }
    while pos < line.len()
        invariant
            pos <= line@.len(),
            done.len() == toks@.len(),
            forall|j: int| 0 <= j < done.len() ==> done[j] == toks@[j]@,
            spec_tokens(line@) == done + spec_tokens(line@.skip(pos as int)),
        decreases line@.len() - pos,
    {
        let ghost rem = line@.skip(pos as int);
        if is_ws_u8(line[pos]) {
            proof {
                assert(rem[0] == line@[pos as int]);
                assert(rem.drop_first() =~= line@.skip(pos as int + 1));
                assert(spec_tokens(rem) == spec_tokens(line@.skip(pos as int + 1)));
            }
            pos = pos + 1;
        } else {
            let mut cur: Vec<u8> = Vec::new();
            let mut j = pos;
            while j < line.len() && !is_ws_u8(line[j])
                invariant
                    pos <= j <= line@.len(),
                    cur@ == line@.subrange(pos as int, j as int),
                    forall|t: int| pos <= t < j ==> !is_ws(line@[t]),
                decreases line@.len() - j,
            {
                let b = line[j];
                cur.push(b);
                j = j + 1;
            }
            proof {
                assert forall|t: int| 0 <= t < j - pos implies !is_ws(rem[t]) by {
                    assert(rem[t] == line@[pos + t]);
                }
                if j < line@.len() {
                    assert(rem[j - pos] == line@[j as int]);
                }
                lemma_first_ws_is(rem, j - pos);
                assert(cur@ =~= rem.subrange(0, j - pos));
                assert(!is_ws(rem[0]));
                if j == line@.len() {
                    assert(first_ws(rem) >= rem.len());
                    assert(spec_tokens(rem) == seq![rem]);
                    assert(cur@ =~= rem);
                    assert(line@.skip(j as int).len() == 0);
                    assert(done.push(cur@) + spec_tokens(line@.skip(j as int)) =~= done
                        + spec_tokens(line@.skip(pos as int)));
                } else {
                    assert(spec_tokens(rem) == seq![rem.subrange(0, j - pos)] + spec_tokens(
                        rem.subrange(j - pos, rem.len() as int),
                    ));
                    assert(rem.subrange(j - pos, rem.len() as int) =~= line@.skip(j as int));
                    assert(done.push(cur@) + spec_tokens(line@.skip(j as int)) =~= done
                        + spec_tokens(line@.skip(pos as int)));
                }
                done = done.push(cur@);
            }
            toks.push(cur);
            pos = j;
        }
    }
    proof {
        assert(line@.skip(pos as int).len() == 0);
        assert(spec_tokens(line@) =~= done);
    }
    toks
}

/// Parses one header field as an unsigned 32-bit decimal number.
#[verifier::loop_isolation(false)]
fn parse_u32(tok: &Vec<u8>) -> (r: Option<u32>)
    ensures
        match r {
            Some(v) => is_dec(tok@) && dec_val(tok@) <= u32::MAX && v as nat == dec_val(tok@),
            None => !(is_dec(tok@) && dec_val(tok@) <= u32::MAX),
        },
{
    if tok.len() == 0 {
        return None;
    }
    let mut acc: u32 = 0;
    let mut i: usize = 0;
    while i < tok.len()
        invariant
            0 < tok@.len(),
            i <= tok@.len(),
            forall|t: int| 0 <= t < i ==> is_digit(tok@[t]),
            acc as nat == dec_val(tok@.take(i as int)),
        decreases tok@.len() - i,
    {
        let b = tok[i];
        if b < ZERO_CH || b > ZERO_CH + 9 {
            proof {
                assert(!is_digit(tok@[i as int]));
            }
            return None;
        }
        let d = (b - ZERO_CH) as u32;
        proof {
            assert(tok@.take(i as int + 1).drop_last() =~= tok@.take(i as int));
            assert(tok@.take(i as int + 1).last() == tok@[i as int]);
        }
        if acc > (u32::MAX - d) / 10 {
            proof {
                assert((acc as int) * 10 + (d as int) > u32::MAX as int) by (nonlinear_arith)
                    requires
                        acc as int > ((u32::MAX - d) as int) / 10,
                        0 <= d <= 9,
                ;
                lemma_dec_val_prefix_le(tok@, i as int + 1);
                assert(dec_val(tok@) >= dec_val(tok@.take(i as int + 1)));
            }
            return None;
        }
        acc = acc * 10 + d;
        i = i + 1;
    }
    proof {
        assert(tok@.take(tok@.len() as int) =~= tok@);
    }
    Some(acc)
}

proof fn lemma_first_nl_is(s: Seq<u8>, i: int)
    requires
        0 <= i <= s.len(),
        forall|j: int| 0 <= j < i ==> s[j] != NL,
        i < s.len() ==> s[i] == NL,
    ensures
        first_nl(s) == i,
    decreases i,
{
    if i == 0 {
    } else {
        assert(s[0] != NL);
        assert forall|j: int| 0 <= j < i - 1 implies s.drop_first()[j] != NL by {
            assert(s.drop_first()[j] == s[j + 1]);
        }
        lemma_first_nl_is(s.drop_first(), i - 1);
    }
}

proof fn lemma_first_ws_is(s: Seq<u8>, i: int)
    requires
        0 <= i <= s.len(),
        forall|j: int| 0 <= j < i ==> !is_ws(s[j]),
        i < s.len() ==> is_ws(s[i]),
    ensures
        first_ws(s) == i,
    decreases i,
{
    if i == 0 {
    } else {
        assert(!is_ws(s[0]));
        assert forall|j: int| 0 <= j < i - 1 implies !is_ws(s.drop_first()[j]) by {
            assert(s.drop_first()[j] == s[j + 1]);
        }
        lemma_first_ws_is(s.drop_first(), i - 1);
    }
}

proof fn lemma_dec_val_prefix_le(s: Seq<u8>, m: int)
    requires
        0 <= m <= s.len(),
    ensures
        dec_val(s) >= dec_val(s.take(m)),
    decreases s.len() - m,
{
    if m == s.len() {
        assert(s.take(m) =~= s);
    } else {
        lemma_dec_val_prefix_le(s, m + 1);
        assert(s.take(m + 1).drop_last() =~= s.take(m));
        assert(dec_val(s.take(m + 1)) == dec_val(s.take(m)) * 10 + (s.take(m + 1).last() - ZERO_CH)
            as nat);
        assert(dec_val(s.take(m)) * 10 >= dec_val(s.take(m)));
    }
}

/// Digits render as digits, and reading them back yields the number.
pub proof fn lemma_dec_digits_props(n: nat)
    ensures
        is_dec(dec_digits(n)),
        dec_val(dec_digits(n)) == n,
    decreases n,
{
    if n < 10 {
        let s = dec_digits(n);
        assert(s == seq![(ZERO_CH + n) as u8]);
        assert(s.drop_last() =~= Seq::<u8>::empty());
        assert(dec_val(s.drop_last()) == 0);
        assert(s.last() == (ZERO_CH + n) as u8);
        assert((ZERO_CH + n) as u8 == ZERO_CH + n);
        assert(dec_val(s) == dec_val(s.drop_last()) * 10 + (s.last() - ZERO_CH) as nat);
        assert(dec_val(s) == n);
    } else {
        lemma_dec_digits_props(n / 10);
        let p = dec_digits(n / 10);
        let d = (ZERO_CH + n % 10) as u8;
        assert(dec_digits(n) == p.push(d));
        assert(p.push(d).drop_last() =~= p);
        assert(p.push(d).last() == d);
        lemma_fundamental_div_mod(n as int, 10);
        assert(dec_val(p.push(d)) == (n / 10) * 10 + n % 10);
        assert((n / 10) * 10 == 10 * (n / 10)) by (nonlinear_arith);
        assert forall|j: int| 0 <= j < p.push(d).len() implies is_digit(p.push(d)[j]) by {
            if j < p.len() {
                assert(p.push(d)[j] == p[j]);
            }
        }
    }
}

proof fn lemma_lines_split(a: Seq<u8>, b: Seq<u8>)
    requires
        forall|j: int| 0 <= j < a.len() ==> a[j] != NL,
    ensures
        spec_lines(a + seq![NL] + b) == seq![a] + spec_lines(b),
{
    let s = a + seq![NL] + b;
    assert forall|j: int| 0 <= j < a.len() implies s[j] != NL by {
        assert(s[j] == a[j]);
    }
    assert(s[a.len() as int] == NL);
    lemma_first_nl_is(s, a.len() as int);
    assert(s.subrange(0, a.len() as int) =~= a);
    assert(s.subrange(a.len() as int + 1, s.len() as int) =~= b);
}

proof fn lemma_tokens_split(a: Seq<u8>, b: Seq<u8>)
    requires
        a.len() > 0,
        forall|j: int| 0 <= j < a.len() ==> !is_ws(a[j]),
    ensures
        spec_tokens(a + seq![SP] + b) == seq![a] + spec_tokens(b),
{
    let s = a + seq![SP] + b;
    assert forall|j: int| 0 <= j < a.len() implies !is_ws(s[j]) by {
        assert(s[j] == a[j]);
    }
    assert(is_ws(s[a.len() as int]));
    lemma_first_ws_is(s, a.len() as int);
    assert(!is_ws(s[0]));
    assert(s.subrange(0, a.len() as int) =~= a);
    let rest = s.subrange(a.len() as int, s.len() as int);
    assert(rest =~= seq![SP] + b);
    assert(is_ws(rest[0]));
    assert(rest.drop_first() =~= b);
    assert(spec_tokens(rest) == spec_tokens(b));
    assert(spec_tokens(s) == seq![a] + spec_tokens(b));
}

proof fn lemma_tokens_single(a: Seq<u8>)
    requires
        a.len() > 0,
        forall|j: int| 0 <= j < a.len() ==> !is_ws(a[j]),
    ensures
        spec_tokens(a) == seq![a],
{
    lemma_first_ws_is(a, a.len() as int);
}

/// Round trip of the snapshot format: parsing a rendered snapshot with the
/// same requested dimensions yields exactly the rendered grid's liveness
/// data and the rendered generation count.
pub proof fn lemma_snapshot_round_trip(g: GridModel, iterations: nat)
    requires
        g.valid(),
        iterations <= u32::MAX,
    ensures
        spec_parse(g.width, g.height, spec_render(g, iterations)) == Ok::<
            (Seq<bool>, nat),
            SnapshotError,
        >((g.cells, iterations)),
{
    let w = g.width;
    let h = g.height;
    let dw = dec_digits(w as nat);
    let dh = dec_digits(h as nat);
    let di = dec_digits(iterations);
    let hd = spec_header(w as nat, h as nat, iterations);
    let rows = spec_rows_from(g.cells, w, h, 0);
    let data = spec_render(g, iterations);
    lemma_dec_digits_props(w as nat);
    lemma_dec_digits_props(h as nat);
    lemma_dec_digits_props(iterations);
    assert forall|j: int| 0 <= j < dw.len() implies !is_ws(dw[j]) && dw[j] != NL by {
        assert(is_digit(dw[j]));
    }
    assert forall|j: int| 0 <= j < dh.len() implies !is_ws(dh[j]) && dh[j] != NL by {
        assert(is_digit(dh[j]));
    }
    assert forall|j: int| 0 <= j < di.len() implies !is_ws(di[j]) && di[j] != NL by {
        assert(is_digit(di[j]));
    }
    assert forall|j: int| 0 <= j < hd.len() implies hd[j] != NL by {
        lemma_header_byte(dw, dh, di, j);
    }
    // the lines of the rendered text: the header, then one line per row
    assert(data =~= hd + seq![NL] + rows);
    lemma_lines_split(hd, rows);
    lemma_lines_of_rows(g, 0);
    let ls = spec_lines(data);
    assert(ls == seq![hd] + spec_lines(rows));
    assert(ls.len() == 1 + h);
    assert(ls[0] == hd);
    // the header splits back into its three fields
    assert(hd =~= dw + seq![SP] + (dh + seq![SP] + di));
    lemma_tokens_split(dw, dh + seq![SP] + di);
    lemma_tokens_split(dh, di);
    lemma_tokens_single(di);
    let toks = spec_tokens(hd);
    assert(toks == seq![dw] + (seq![dh] + seq![di]));
    assert(toks.len() == 3);
    assert(toks[0] == dw && toks[1] == dh && toks[2] == di);
    assert(w <= w * h && h <= w * h) by (nonlinear_arith)
        requires
            0 < w,
            0 < h,
    ;
    assert(fields_numeric(toks));
    // the matrix read back for the same dimensions is the original grid
    let rls = ls.drop_first();
    assert(rls.len() == h);
    assert forall|y: int| 0 <= y < h implies rls[y] == spec_row(g.cells, w, y) by {
        assert(rls[y] == spec_lines(rows)[y]);
    }
    let back = spec_grid_from_rows(rls, w, h);
    assert forall|i: int| 0 <= i < w * h implies back[i] == g.cells[i] by {
        lemma_decode_bounds(w, h, i);
        let y = i / w;
        let x = i % w;
        assert(rls[y].len() == w);
        assert(rls[y][x] == (if g.cells[y * w + x] {
            ALIVE_CH
        } else {
            DEAD_CH
        }));
    }
    assert(back =~= g.cells);
}

proof fn lemma_header_byte(dw: Seq<u8>, dh: Seq<u8>, di: Seq<u8>, j: int)
    requires
        is_dec(dw),
        is_dec(dh),
        is_dec(di),
        0 <= j < (dw + seq![SP] + dh + seq![SP] + di).len(),
    ensures
        (dw + seq![SP] + dh + seq![SP] + di)[j] != NL,
{
    let s = dw + seq![SP] + dh + seq![SP] + di;
    if j < dw.len() {
        assert(s[j] == dw[j]);
        assert(is_digit(dw[j]));
    } else if j == dw.len() {
        assert(s[j] == SP);
    } else if j < dw.len() + 1 + dh.len() {
        assert(s[j] == dh[j - dw.len() - 1]);
        assert(is_digit(dh[j - dw.len() - 1]));
    } else if j == dw.len() + 1 + dh.len() {
        assert(s[j] == SP);
    } else {
        assert(s[j] == di[j - dw.len() - dh.len() - 2]);
        assert(is_digit(di[j - dw.len() - dh.len() - 2]));
    }
}

/// The lines of the rendered matrix from row `y` on are exactly the
/// rendered rows `y` to `h - 1`.
proof fn lemma_lines_of_rows(g: GridModel, y: int)
    requires
        g.valid(),
        0 <= y <= g.height,
    ensures
        spec_lines(spec_rows_from(g.cells, g.width, g.height, y)) == Seq::new(
            (g.height - y) as nat,
            |j: int| spec_row(g.cells, g.width, y + j),
        ),
    decreases g.height - y,
{
    let w = g.width;
    let h = g.height;
    if y == h {
        assert(spec_rows_from(g.cells, w, h, y) == Seq::<u8>::empty());
        assert(spec_lines(spec_rows_from(g.cells, w, h, y)) =~= Seq::new(
            0,
            |j: int| spec_row(g.cells, w, y + j),
        ));
    } else {
        lemma_lines_of_rows(g, y + 1);
        let row = spec_row(g.cells, w, y);
        assert forall|j: int| 0 <= j < row.len() implies row[j] != NL by {
            assert(row[j] == ALIVE_CH || row[j] == DEAD_CH);
        }
        lemma_lines_split(row, spec_rows_from(g.cells, w, h, y + 1));
        assert(spec_lines(spec_rows_from(g.cells, w, h, y)) =~= Seq::new(
            (h - y) as nat,
            |j: int| spec_row(g.cells, w, y + j),
        ));
    }
}

/// Writes a number's decimal digits onto the end of a byte vector.
fn push_dec(out: &mut Vec<u8>, n: u32)
    ensures
        final(out)@ == old(out)@ + dec_digits(n as nat),
    decreases n,
{
    if n >= 10 {
        push_dec(out, n / 10);
        let d = ZERO_CH + (n % 10) as u8;
        out.push(d);
        proof {
            assert(out@ =~= old(out)@ + dec_digits(n as nat));
        }
    } else {
        let d = ZERO_CH + n as u8;
        out.push(d);
        proof {
            assert(out@ =~= old(out)@ + dec_digits(n as nat));
        }
    }
}

/// Renders a universe as snapshot text: `width height iterations` on the
/// first line, then `height` lines of `width` cells each, `'O'` for alive
/// and `'.'` for dead, in row-major order.
#[verifier::loop_isolation(false)]
pub fn render_snapshot(u: &Universe, iterations: u32) -> (out: Vec<u8>)
    requires
        u.wf(),
    ensures
        out@ == spec_render(u@, iterations as nat),
{
    let ghost g = u@;
    let width = u.width();
    let height = u.height();
    let mut out: Vec<u8> = Vec::new();
    push_dec(&mut out, width);
    out.push(SP);
    push_dec(&mut out, height);
    out.push(SP);
    push_dec(&mut out, iterations);
    out.push(NL);
    proof {
        assert(out@ =~= spec_header(g.width as nat, g.height as nat, iterations as nat)
            + seq![NL]);
    }
    for y in 0..height
        invariant
            spec_render(g, iterations as nat) == out@ + spec_rows_from(
                g.cells,
                g.width,
                g.height,
                y as int,
            ),
    {
        let ghost row0 = out@;
        for x in 0..width
            invariant
                out@ == row0 + spec_row(g.cells, g.width, y as int).take(x as int),
        {
            let b = if u.get_cell_naive(y, x) {
                ALIVE_CH
            } else {
                DEAD_CH
            };
            out.push(b);
            proof {
                let row = spec_row(g.cells, g.width, y as int);
                assert(row[x as int] == b);
                assert(row.take(x as int + 1) =~= row.take(x as int).push(b));
                assert(out@ =~= row0 + row.take(x as int + 1));
            }
        }
        out.push(NL);
        proof {
            let row = spec_row(g.cells, g.width, y as int);
            assert(row.take(g.width as int) =~= row);
            assert(out@ =~= row0 + row + seq![NL]);
            assert(spec_rows_from(g.cells, g.width, g.height, y as int) == row + seq![NL]
                + spec_rows_from(g.cells, g.width, g.height, y as int + 1));
            assert(out@ + spec_rows_from(g.cells, g.width, g.height, y as int + 1) =~= row0
                + spec_rows_from(g.cells, g.width, g.height, y as int));
        }
    }
    proof {
        assert(out@ + spec_rows_from(g.cells, g.width, g.height, g.height) =~= out@);
    }
    out
}

/// Reads a snapshot text against requested dimensions. The declared width
/// and height must equal the requested ones; rows narrower or fewer than
/// requested leave the remaining cells dead, and anything beyond the
/// requested dimensions is ignored.
#[verifier::loop_isolation(false)]
pub fn parse_snapshot(width: u32, height: u32, data: &Vec<u8>) -> (r: Result<
    Snapshot,
    SnapshotError,
>)
    requires
        0 < width,
        0 < height,
        (width as int) * (height as int) <= u32::MAX as int,
    ensures
        match r {
            Ok(snap) => spec_parse(width as int, height as int, data@) == Ok::<
                (Seq<bool>, nat),
                SnapshotError,
            >((snap.cells@, snap.iterations as nat)) && snap.cells@.len() == (width as int) * (
            height as int),
            Err(e) => spec_parse(width as int, height as int, data@) == Err::<
                (Seq<bool>, nat),
                SnapshotError,
            >(e),
        },
{
    let ghost ls = spec_lines(data@);
    let lines = split_lines(data);
    if lines.len() == 0 {
        return Err(SnapshotError::Parse);
    }
    let ghost tks = spec_tokens(ls[0]);
    let toks = split_tokens(&lines[0]);
    let mut vals: Vec<u32> = Vec::new();
    let mut j: usize = 0;
    while j < toks.len()
        invariant
            j <= toks@.len(),
            vals@.len() == j,
            forall|t: int|
                0 <= t < j ==> is_dec(#[trigger] tks[t]) && dec_val(tks[t]) <= u32::MAX && vals@[t]
                    as nat == dec_val(tks[t]),
        decreases toks@.len() - j,
    {
        match parse_u32(&toks[j]) {
            Some(v) => {
                vals.push(v);
            },
            None => {
                proof {
                    assert(!(is_dec(tks[j as int]) && dec_val(tks[j as int]) <= u32::MAX));
                    assert(!fields_numeric(tks));
                }
                return Err(SnapshotError::Parse);
            },
        }
        j = j + 1;
    }
    proof {
        assert(fields_numeric(tks));
    }
    if vals.len() != 3 {
        return Err(SnapshotError::Mismatch);
    }
    let fw = vals[0];
    let fh = vals[1];
    if fw != width || fh != height {
        return Err(SnapshotError::Mismatch);
    }
    let total = width * height;
    let ghost rows = ls.drop_first();
    let mut cells: Vec<bool> = Vec::new();
    let mut i: u32 = 0;
    while i < total
        invariant
            i <= total,
            cells@.len() == i,
            forall|t: int|
                0 <= t < i ==> cells@[t] == spec_grid_from_rows(
                    rows,
                    width as int,
                    height as int,
                )[t],
        decreases total - i,
    {
        proof {
            lemma_decode_bounds(width as int, height as int, i as int);
        }
        let y = i / width;
        let x = i % width;
        let yi = y as usize;
        let mut alive = false;
        if yi < lines.len() - 1 {
            let row = &lines[yi + 1];
            let xi = x as usize;
            if xi < row.len() {
                alive = row[xi] == ALIVE_CH;
            }
        }
        proof {
            let gv = spec_grid_from_rows(rows, width as int, height as int);
            assert(rows.len() == ls.len() - 1);
            if yi < lines@.len() - 1 {
                assert(rows[y as int] == ls[y as int + 1]);
                assert(lines@[y as int + 1]@ == ls[y as int + 1]);
            }
            assert(alive == gv[i as int]);
        }
        cells.push(alive);
        i = i + 1;
    }
    proof {
        assert(cells@ =~= spec_grid_from_rows(rows, width as int, height as int));
    }
    Ok(Snapshot { cells, iterations: vals[2] })
}

/// Builds a universe from snapshot text, as `parse_snapshot` reads it for
/// the requested dimensions, and returns it with the declared cumulative
/// generation count.
pub fn from_snapshot(
    width: u32,
    height: u32,
    implementation: Implementation,
    data: &Vec<u8>,
) -> (r: Result<(Universe, u32), SnapshotError>)
    requires
        0 < width,
        0 < height,
        (width as int) * (height as int) <= u32::MAX as int,
    ensures
        match r {
            Ok(p) => {
                &&& p.0.wf()
                &&& p.0.strategy() == implementation
                &&& spec_parse(width as int, height as int, data@) == Ok::<
                    (Seq<bool>, nat),
                    SnapshotError,
                >((p.0@.cells, p.1 as nat))
                &&& p.0@.width == width as int
                &&& p.0@.height == height as int
            },
            Err(e) => spec_parse(width as int, height as int, data@) == Err::<
                (Seq<bool>, nat),
                SnapshotError,
            >(e),
        },
{
    match parse_snapshot(width, height, data) {
        Ok(snap) => {
            let u = Universe::from_cells(width, height, snap.cells, implementation);
            Ok((u, snap.iterations))
        },
        Err(e) => Err(e),
    }
}

} // verus!
