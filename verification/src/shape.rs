//! Field shapes: the text format in which the board layouts are stored (one text line per
//! board row, the last line being row zero; `x` marks a tile, `o` or a space marks a hole),
//! their run-length encoding, and decoding back into tile positions.

use vstd::prelude::*;
use crate::position::{pos, spec_neighbors, Position};

verus! {

/// Whether a column of a row holds a tile.
#[derive(PartialEq, Eq, Clone, Copy, Debug, Structural)]
pub enum TileKind {
    Void,
    Exists,
}

/// One unit of the run-length encoding of a shape.
#[derive(PartialEq, Eq, Clone, Copy, Debug, Structural)]
pub enum FieldCode {
    /// Starts a new row; the first run of the row has kind `starts`.
    Row { starts: TileKind },
    /// A run of this many columns; runs alternate between the two kinds.
    Run(u32),
}

/// A board layout in run-length form.
#[derive(Clone, Debug)]
pub struct FieldShape {
    codes: Vec<FieldCode>,
}

// ---------------------------------------------------------------------------
// specifications
// ---------------------------------------------------------------------------

pub open spec fn flipped(k: TileKind) -> TileKind {
    match k {
        TileKind::Void => TileKind::Exists,
        TileKind::Exists => TileKind::Void,
    }
}

/// The kind a byte of the text format stands for, if any.
pub open spec fn kind_of(b: u8) -> Option<TileKind> {
    if b == 111 || b == 32 {
        Some(TileKind::Void)
    } else if b == 120 {
        Some(TileKind::Exists)
    } else {
        None
    }
}

/// The lines of `s` from index `j` on, the current line having started at `start`.
pub open spec fn split_from(s: Seq<u8>, start: int, j: int) -> Seq<Seq<u8>>
    decreases s.len() - j,
{
    if j >= s.len() {
        seq![s.subrange(start, s.len() as int)]
    } else if s[j] == 10 {
        seq![s.subrange(start, j)] + split_from(s, j + 1, j + 1)
    } else {
        split_from(s, start, j + 1)
    }
}

/// The lines of `s`, separated by `\n`; there is always at least one.
pub open spec fn split_lines(s: Seq<u8>) -> Seq<Seq<u8>> {
    split_from(s, 0, 0)
}

/// The lines of `s` from the last to the first: the `y`-th of them is row `y`.
pub open spec fn rows_of(s: Seq<u8>) -> Seq<Seq<u8>> {
    split_lines(s).reverse()
}

/// The first byte of `l` from index `i` on that stands for no tile kind.
pub open spec fn first_bad(l: Seq<u8>, i: int) -> Option<u8>
    decreases l.len() - i,
{
    if i >= l.len() {
        None
    } else if kind_of(l[i]).is_none() {
        Some(l[i])
    } else {
        first_bad(l, i + 1)
    }
}

/// The first invalid byte of the rows, taken in order.
pub open spec fn first_invalid(ls: Seq<Seq<u8>>) -> Option<u8>
    decreases ls.len(),
{
    if ls.len() == 0 {
        None
    } else {
        match first_bad(ls[0], 0) {
            Some(b) => Some(b),
            None => first_invalid(ls.drop_first()),
        }
    }
}

/// The lengths of the maximal runs of one kind in `l` from index `i` on, the current run
/// having started at `start`.
pub open spec fn runs_from(l: Seq<u8>, i: int, start: int) -> Seq<FieldCode>
    decreases l.len() - i,
{
    if i >= l.len() {
        if start < l.len() { seq![FieldCode::Run((l.len() - start) as u32)] } else { seq![] }
    } else if i > start && kind_of(l[i]) != kind_of(l[start]) {
        seq![FieldCode::Run((i - start) as u32)] + runs_from(l, i + 1, i)
    } else {
        runs_from(l, i + 1, start)
    }
}

/// The kind of the first run of a row.
pub open spec fn header(l: Seq<u8>) -> TileKind {
    if l.len() == 0 { TileKind::Void } else { kind_of(l[0]).unwrap() }
}

/// The codes of one row.
pub open spec fn line_codes(l: Seq<u8>) -> Seq<FieldCode> {
    seq![FieldCode::Row { starts: header(l) }] + runs_from(l, 0, 0)
}

/// The codes of a sequence of rows.
pub open spec fn encode_lines(ls: Seq<Seq<u8>>) -> Seq<FieldCode>
    decreases ls.len(),
{
    if ls.len() == 0 {
        seq![]
    } else {
        line_codes(ls[0]) + encode_lines(ls.drop_first())
    }
}

/// The positions `x0 + i` (for `i` from 0) of a row whose byte is `x`, in order.
pub open spec fn xs_range(l: Seq<u8>, j: int, end: int, y: int) -> Seq<Position>
    decreases end - j,
{
    if j >= end {
        seq![]
    } else {
        (if l[j] == 120 { seq![pos(j, y)] } else { seq![] }) + xs_range(l, j + 1, end, y)
    }
}

/// The tiles of the rows `ls`, the first of them being row `y`.
pub open spec fn xs_lines(ls: Seq<Seq<u8>>, y: int) -> Seq<Position>
    decreases ls.len(),
{
    if ls.len() == 0 {
        seq![]
    } else {
        xs_range(ls[0], 0, ls[0].len() as int, y) + xs_lines(ls.drop_first(), y + 1)
    }
}

/// The tiles a text holds: each `x`, at its column and row.
pub open spec fn tiles_of(s: Seq<u8>) -> Seq<Position> {
    xs_lines(rows_of(s), 0)
}

/// `n` consecutive positions of row `row` starting at column `col`.
pub open spec fn run_positions(col: int, n: int, row: int) -> Seq<Position> {
    Seq::new(n as nat, |i: int| pos(col + i, row))
}

/// The positions the codes describe, decoding from the given row, column and kind of the
/// previous run.
pub open spec fn decode_from(codes: Seq<FieldCode>, row: int, col: int, kind: TileKind) -> Seq<Position>
    decreases codes.len(),
{
    if codes.len() == 0 {
        seq![]
    } else {
        match codes[0] {
            FieldCode::Row { starts } => decode_from(codes.drop_first(), row + 1, 0, flipped(starts)),
            FieldCode::Run(n) => {
                let k = flipped(kind);
                (if k == TileKind::Exists { run_positions(col, n as int, row) } else { seq![] })
                    + decode_from(codes.drop_first(), row, col + n, k)
            },
        }
    }
}

/// The positions a shape describes.
pub open spec fn decoded(codes: Seq<FieldCode>) -> Seq<Position> {
    decode_from(codes, -1, 0, TileKind::Void)
}

/// The number of rows plus the number of columns the codes cover.
pub open spec fn shape_size(codes: Seq<FieldCode>) -> int
    decreases codes.len(),
{
    if codes.len() == 0 {
        0
    } else {
        (match codes[0] {
            FieldCode::Row { .. } => 1int,
            FieldCode::Run(n) => n as int,
        }) + shape_size(codes.drop_first())
    }
}

/// The longest text the shape parser accepts: run lengths must fit in a `u32` and columns in
/// an `isize` on every platform.
pub const MAX_SHAPE_TEXT: usize = 0x7fff_fffe;

/// The weight (length plus one) of the first `k` lines, given as ranges of the text.
pub open spec fn weight_upto(ranges: Seq<(usize, usize)>, k: int) -> int
    decreases k,
{
    if k <= 0 {
        0
    } else {
        weight_upto(ranges, k - 1) + (ranges[k - 1].1 - ranges[k - 1].0) + 1
    }
}

// ---------------------------------------------------------------------------
// lemmas
// ---------------------------------------------------------------------------

proof fn lemma_shape_size_append(a: Seq<FieldCode>, b: Seq<FieldCode>)
    ensures
        shape_size(a + b) == shape_size(a) + shape_size(b),
    decreases a.len(),
{
    if a.len() > 0 {
        lemma_shape_size_append(a.drop_first(), b);
        assert((a + b).drop_first() =~= a.drop_first() + b);
    } else {
        assert(a + b =~= b);
    }
}

proof fn lemma_runs_size(l: Seq<u8>, i: int, start: int)
    requires
        0 <= start <= i <= l.len(),
        start == i || start < l.len(),
        l.len() <= u32::MAX,
    ensures
        shape_size(runs_from(l, i, start)) == l.len() - start,
    decreases l.len() - i,
{
    if i >= l.len() {
        if start < l.len() {
            let r = runs_from(l, i, start);
            assert(shape_size(r.drop_first()) == 0);
        }
    } else if i > start && kind_of(l[i]) != kind_of(l[start]) {
        lemma_runs_size(l, i + 1, i);
        let head = seq![FieldCode::Run((i - start) as u32)];
        lemma_shape_size_append(head, runs_from(l, i + 1, i));
        assert(shape_size(head.drop_first()) == 0);
    } else {
        lemma_runs_size(l, i + 1, start);
    }
}

proof fn lemma_encode_push(a: Seq<Seq<u8>>, l: Seq<u8>)
    ensures
        encode_lines(a.push(l)) == encode_lines(a) + line_codes(l),
    decreases a.len(),
{
    if a.len() == 0 {
        assert(a.push(l).drop_first() =~= a);
        assert(encode_lines(a.push(l)) =~= line_codes(l) + encode_lines(a));
        assert(encode_lines(a.push(l)) =~= encode_lines(a) + line_codes(l));
    } else {
        lemma_encode_push(a.drop_first(), l);
        assert(a.push(l).drop_first() =~= a.drop_first().push(l));
        assert(encode_lines(a.push(l)) =~= encode_lines(a) + line_codes(l));
    }
}

proof fn lemma_first_invalid_push(a: Seq<Seq<u8>>, l: Seq<u8>)
    requires
        first_invalid(a).is_none(),
    ensures
        first_invalid(a.push(l)) == first_bad(l, 0),
    decreases a.len(),
{
    if a.len() == 0 {
        assert(a.push(l).drop_first() =~= a);
    } else {
        lemma_first_invalid_push(a.drop_first(), l);
        assert(a.push(l).drop_first() =~= a.drop_first().push(l));
    }
}

proof fn lemma_first_bad_none(l: Seq<u8>, i: int)
    requires
        0 <= i,
        forall|t: int| i <= t < l.len() ==> kind_of(#[trigger] l[t]).is_some(),
    ensures
        first_bad(l, i).is_none(),
    decreases l.len() - i,
{
    if i < l.len() {
        lemma_first_bad_none(l, i + 1);
    }
}

proof fn lemma_first_bad_at(l: Seq<u8>, i: int, t: int)
    requires
        0 <= i <= t < l.len(),
        forall|u: int| i <= u < t ==> kind_of(#[trigger] l[u]).is_some(),
        kind_of(l[t]).is_none(),
    ensures
        first_bad(l, i) == Some(l[t]),
    decreases t - i,
{
    if i < t {
        lemma_first_bad_at(l, i + 1, t);
    }
}

proof fn lemma_weight_mono(ranges: Seq<(usize, usize)>, a: int, b: int)
    requires
        0 <= a <= b <= ranges.len(),
        forall|k: int| 0 <= k < ranges.len() ==> (#[trigger] ranges[k]).0 <= ranges[k].1,
    ensures
        weight_upto(ranges, a) <= weight_upto(ranges, b),
    decreases b - a,
{
    if a < b {
        lemma_weight_mono(ranges, a, b - 1);
    }
}

impl FieldShape {
    pub closed spec fn codes(&self) -> Seq<FieldCode> {
        self.codes@
    }
}


// ---------------------------------------------------------------------------
// executable code
// ---------------------------------------------------------------------------

impl TileKind {
    /// The other kind.
    pub fn flip(&self) -> (k: TileKind)
        ensures
            k == flipped(*self),
    {
        match self {
            TileKind::Void => TileKind::Exists,
            TileKind::Exists => TileKind::Void,
        }
    }

    /// The kind a byte of the text format stands for; the byte itself where it stands for none.
    pub fn try_from(value: u8) -> (r: Result<TileKind, u8>)
        ensures
            match r {
                Ok(k) => kind_of(value) == Some(k),
                Err(b) => kind_of(value).is_none() && b == value,
            },
    {
        if value == 111 || value == 32 {
            Ok(TileKind::Void)
        } else if value == 120 {
            Ok(TileKind::Exists)
        } else {
            Err(value)
        }
    }
}

/// The lines of the text, as ranges `[start, end)`, from the first to the last.
fn line_ranges(bytes: &[u8]) -> (r: (Vec<(usize, usize)>, Ghost<Seq<Seq<u8>>>))
    ensures
        r.1@ == split_lines(bytes@),
        r.0.len() == r.1@.len(),
        1 <= r.0.len() <= bytes.len() + 1,
        forall|k: int| 0 <= k < r.0.len() ==> (#[trigger] r.0[k]).0 <= r.0[k].1 <= bytes.len(),
        forall|k: int| 0 <= k < r.0.len() ==> r.1@[k] == bytes@.subrange((#[trigger] r.0[k]).0 as int, r.0[k].1 as int),
        weight_upto(r.0@, r.0.len() as int) == bytes.len() + 1,
{
    let n = bytes.len();
    let mut ranges: Vec<(usize, usize)> = Vec::new();
    let ghost mut acc: Seq<Seq<u8>> = seq![];
    let mut start: usize = 0;
    let mut j: usize = 0;
    while j < n
        invariant
            n == bytes.len(),
            start <= j <= n,
            ranges.len() <= start,
            acc + split_from(bytes@, start as int, j as int) == split_lines(bytes@),
            ranges.len() == acc.len(),
            forall|k: int| 0 <= k < ranges.len() ==> (#[trigger] ranges[k]).0 <= ranges[k].1 <= start,
            forall|k: int| 0 <= k < ranges.len() ==> acc[k] == bytes@.subrange((#[trigger] ranges[k]).0 as int, ranges[k].1 as int),
            weight_upto(ranges@, ranges.len() as int) == start,
        decreases n - j,
    {
        if bytes[j] == 10 {
            let ghost line = bytes@.subrange(start as int, j as int);
            proof {
                assert(split_from(bytes@, start as int, j as int) == seq![line] + split_from(bytes@, j + 1, j + 1));
                assert(acc.push(line) + split_from(bytes@, j + 1, j + 1) =~= acc + (seq![line] + split_from(bytes@, j + 1, j + 1)));
            }
            let ghost old_r = ranges@;
            ranges.push((start, j));
            proof {
                acc = acc.push(line);
                assert(ranges@.drop_last() =~= old_r);
                lemma_weight_prefix(ranges@, (ranges.len() - 1) as int);
            }
            start = j + 1;
        }
        j = j + 1;
    }
    let ghost line = bytes@.subrange(start as int, n as int);
    proof {
        assert(split_from(bytes@, start as int, n as int) == seq![line]);
        assert(acc + seq![line] =~= acc.push(line));
    }
    let ghost old_r = ranges@;
    ranges.push((start, n));
    proof {
        acc = acc.push(line);
        assert(ranges@.drop_last() =~= old_r);
        lemma_weight_prefix(ranges@, (ranges.len() - 1) as int);
    }
    (ranges, Ghost(acc))
}

/// The weight of a prefix does not depend on what follows it.
proof fn lemma_weight_prefix(ranges: Seq<(usize, usize)>, k: int)
    requires
        0 <= k < ranges.len(),
    ensures
        weight_upto(ranges, k) == weight_upto(ranges.drop_last(), k),
        weight_upto(ranges, k + 1) == weight_upto(ranges, k) + (ranges[k].1 - ranges[k].0) + 1,
    decreases k,
{
    if k > 0 {
        lemma_weight_prefix(ranges, k - 1);
    }
}

impl FieldShape {
    /// Reads a shape from its text form. Rows are taken from the last line to the first; within
    /// a row, the maximal runs of tiles (`x`) and holes (`o` or space) become run codes. The
    /// first byte that is none of these is the error, rows being scanned in that order.
    pub fn try_from(bytes: &[u8]) -> (r: Result<FieldShape, u8>)
        requires
            bytes.len() <= MAX_SHAPE_TEXT,
        ensures
            match r {
                Ok(shape) => {
                    &&& first_invalid(rows_of(bytes@)).is_none()
                    &&& shape.codes() == encode_lines(rows_of(bytes@))
                    &&& shape_size(shape.codes()) == bytes.len() + 1
                },
                Err(b) => first_invalid(rows_of(bytes@)) == Some(b),
            },
    {
        let (ranges, Ghost(lines)) = line_ranges(bytes);
        let nl = ranges.len();
        let ghost rows = rows_of(bytes@);
        assert(rows.len() == nl);
        let mut codes: Vec<FieldCode> = Vec::new();
        let mut k: usize = nl;
        while k > 0
            invariant
                nl == ranges.len(),
                lines == split_lines(bytes@),
                rows == lines.reverse(),
                rows.len() == nl,
                bytes.len() <= MAX_SHAPE_TEXT,
                k <= nl,
                forall|t: int| 0 <= t < nl ==> (#[trigger] ranges[t]).0 <= ranges[t].1 <= bytes.len(),
                forall|t: int| 0 <= t < nl ==> lines[t] == bytes@.subrange((#[trigger] ranges[t]).0 as int, ranges[t].1 as int),
                weight_upto(ranges@, nl as int) == bytes.len() + 1,
                first_invalid(rows.take(nl - k)).is_none(),
                codes@ == encode_lines(rows.take(nl - k)),
                shape_size(codes@) == weight_upto(ranges@, nl as int) - weight_upto(ranges@, k as int),
            decreases k,
        {
            let ls = ranges[k - 1].0;
            let le = ranges[k - 1].1;
            let ghost l = bytes@.subrange(ls as int, le as int);
            let ghost ri: int = nl - k;
            proof {
                assert(rows[ri] == lines[k - 1]);
                assert(rows.take(ri + 1) =~= rows.take(ri).push(l));
                lemma_weight_prefix(ranges@, k - 1);
                lemma_weight_mono(ranges@, k as int, nl as int);
            }
            let len = le - ls;
            let ghost before = codes@;
            let starts = if len == 0 {
                TileKind::Void
            } else {
                match TileKind::try_from(bytes[ls]) {
                    Ok(kind) => kind,
                    Err(b) => {
                        proof {
                            lemma_first_bad_at(l, 0, 0);
                            lemma_first_invalid_push(rows.take(ri), l);
                            lemma_first_invalid_prefix(rows, ri + 1);
                        }
                        return Err(b);
                    },
                }
            };
            codes.push(FieldCode::Row { starts });
            let mut start: usize = 0;
            let mut cur = starts;
            let mut i: usize = 0;
            let ghost mut emitted: Seq<FieldCode> = seq![];
            while i < len
                invariant
                    ls <= le <= bytes.len(),
                    bytes.len() <= MAX_SHAPE_TEXT,
                    len == le - ls,
                    l == bytes@.subrange(ls as int, le as int),
                    start <= i <= len,
                    start == i || start < len,
                    len > 0 ==> kind_of(l[start as int]) == Some(cur),
                    forall|t: int| 0 <= t < i ==> kind_of(#[trigger] l[t]).is_some(),
                    codes@ == before + seq![FieldCode::Row { starts }] + emitted,
                    starts == header(l),
                    emitted + runs_from(l, i as int, start as int) == runs_from(l, 0, 0),
                    0 <= ri < rows.len(),
                    rows == rows_of(bytes@),
                    rows[ri] == l,
                    rows.take(ri + 1) == rows.take(ri).push(l),
                    first_invalid(rows.take(ri)).is_none(),
                decreases len - i,
            {
                let b = bytes[ls + i];
                assert(b == l[i as int]);
                let kind = match TileKind::try_from(b) {
                    Ok(kind) => kind,
                    Err(b) => {
                        proof {
                            lemma_first_bad_at(l, 0, i as int);
                            lemma_first_invalid_push(rows.take(ri), l);
                            lemma_first_invalid_prefix(rows, ri + 1);
                        }
                        return Err(b);
                    },
                };
                if i > start && kind != cur {
                    let run = FieldCode::Run((i - start) as u32);
                    proof {
                        assert(runs_from(l, i as int, start as int) == seq![run] + runs_from(l, i + 1, i as int));
                        assert(emitted.push(run) + runs_from(l, i + 1, i as int) =~= emitted + (seq![run] + runs_from(l, i + 1, i as int)));
                        emitted = emitted.push(run);
                    }
                    codes.push(run);
                    start = i;
                    cur = kind;
                } else {
                    proof {
                        assert(runs_from(l, i as int, start as int) == runs_from(l, i + 1, start as int));
                    }
                }
                i = i + 1;
            }
            if start < len {
                let run = FieldCode::Run((len - start) as u32);
                proof {
                    assert(runs_from(l, len as int, start as int) == seq![run]);
                    emitted = emitted.push(run);
                }
                codes.push(run);
            } else {
                proof {
                    assert(runs_from(l, len as int, start as int) == Seq::<FieldCode>::empty());
                    assert(emitted + Seq::<FieldCode>::empty() =~= emitted);
                }
            }
            proof {
                assert(codes@ =~= before + line_codes(l));
                lemma_encode_push(rows.take(ri), l);
                lemma_first_bad_none(l, 0);
                lemma_first_invalid_push(rows.take(ri), l);
                lemma_runs_size(l, 0, 0);
                lemma_shape_size_append(before, line_codes(l));
                lemma_shape_size_append(seq![FieldCode::Row { starts }], runs_from(l, 0, 0));
                assert(shape_size(seq![FieldCode::Row { starts }]) == 1) by {
                    let one = seq![FieldCode::Row { starts }];
                    assert(one.drop_first().len() == 0);
                    assert(shape_size(one.drop_first()) == 0);
                }
            }
            k = k - 1;
        }
        proof {
            assert(rows.take(nl as int) =~= rows);
        }
        Ok(FieldShape { codes })
    }
}

/// A row prefix with an invalid byte makes the whole text invalid at that byte.
proof fn lemma_first_invalid_prefix(ls: Seq<Seq<u8>>, k: int)
    requires
        0 <= k <= ls.len(),
        first_invalid(ls.take(k)).is_some(),
    ensures
        first_invalid(ls) == first_invalid(ls.take(k)),
    decreases k,
{
    if k > 0 {
        assert(ls.take(k)[0] == ls[0]);
        if first_bad(ls[0], 0).is_none() {
            assert(ls.take(k).drop_first() =~= ls.drop_first().take(k - 1));
            lemma_first_invalid_prefix(ls.drop_first(), k - 1);
        }
    }
}


proof fn lemma_shape_size_nonneg(codes: Seq<FieldCode>)
    ensures
        shape_size(codes) >= 0,
    decreases codes.len(),
{
    if codes.len() > 0 {
        lemma_shape_size_nonneg(codes.drop_first());
    }
}

proof fn lemma_shape_size_prefix(codes: Seq<FieldCode>, i: int)
    requires
        0 <= i < codes.len(),
    ensures
        shape_size(codes.take(i + 1)) == shape_size(codes.take(i)) + (match codes[i] {
            FieldCode::Row { .. } => 1int,
            FieldCode::Run(n) => n as int,
        }),
        shape_size(codes.take(i + 1)) <= shape_size(codes),
{
    let one = seq![codes[i]];
    assert(codes.take(i + 1) =~= codes.take(i) + one);
    lemma_shape_size_append(codes.take(i), one);
    assert(shape_size(one.drop_first()) == 0);
    assert(codes =~= codes.take(i + 1) + codes.skip(i + 1));
    lemma_shape_size_append(codes.take(i + 1), codes.skip(i + 1));
    lemma_shape_size_nonneg(codes.skip(i + 1));
}

impl FieldShape {
    /// The positions of the tiles of the shape: for each row in turn, the columns of its runs of
    /// tiles, from left to right.
    pub fn decode(&self) -> (v: Vec<Position>)
        requires
            shape_size(self.codes()) <= isize::MAX,
        ensures
            v@ == decoded(self.codes()),
    {
        let codes = &self.codes;
        let n = codes.len();
        let mut v: Vec<Position> = Vec::new();
        let mut row: isize = -1;
        let mut col: isize = 0;
        let mut kind = TileKind::Void;
        let mut i: usize = 0;
        proof {
            assert(codes@.skip(0) =~= codes@);
            assert(codes@.take(0).len() == 0);
        }
        while i < n
            invariant
                n == codes.len(),
                i <= n,
                shape_size(codes@) <= isize::MAX,
                -1 <= row,
                0 <= col,
                row + 1 + col <= shape_size(codes@.take(i as int)),
                v@ + decode_from(codes@.skip(i as int), row as int, col as int, kind) == decoded(codes@),
            decreases n - i,
        {
            let ghost rest = codes@.skip(i as int);
            proof {
                lemma_shape_size_prefix(codes@, i as int);
                assert(rest.drop_first() =~= codes@.skip(i + 1));
                assert(rest[0] == codes@[i as int]);
            }
            match codes[i] {
                FieldCode::Row { starts } => {
                    kind = starts.flip();
                    row = row + 1;
                    col = 0;
                },
                FieldCode::Run(size) => {
                    let this_col = col;
                    kind = kind.flip();
                    col = col + size as isize;
                    let ghost before = v@;
                    if kind == TileKind::Exists {
                        let mut c = this_col;
                        while c < col
                            invariant
                                this_col <= c <= col,
                                v@ == before + run_positions(this_col as int, c - this_col, row as int),
                            decreases col - c,
                        {
                            v.push(Position::new(c, row));
                            proof {
                                assert(v@ =~= before + run_positions(this_col as int, c + 1 - this_col, row as int));
                            }
                            c = c + 1;
                        }
                        proof {
                            assert(v@ + decode_from(codes@.skip(i + 1), row as int, col as int, kind)
                                =~= before + decode_from(rest, row as int, this_col as int, flipped(kind)));
                        }
                    } else {
                        proof {
                            assert(decode_from(rest, row as int, this_col as int, flipped(kind))
                                =~= decode_from(codes@.skip(i + 1), row as int, col as int, kind));
                        }
                    }
                },
            }
            i = i + 1;
        }
        v
    }

    /// Whether the shape can be decoded on this machine: its rows and its columns, counted
    /// together, fit in an `isize`.
    pub fn decodable(&self) -> (r: bool)
        ensures
            r == (shape_size(self.codes()) <= isize::MAX),
    {
        let codes = &self.codes;
        let mut total: u128 = 0;
        let mut i: usize = 0;
        proof {
            assert(codes@.take(0).len() == 0);
            lemma_shape_size_nonneg(codes@);
        }
        while i < codes.len()
            invariant
                i <= codes.len(),
                codes@ == self.codes(),
                total == shape_size(codes@.take(i as int)),
                total <= isize::MAX,
            decreases codes.len() - i,
        {
            proof { lemma_shape_size_prefix(codes@, i as int); }
            let step: u128 = match codes[i] {
                FieldCode::Row { .. } => 1,
                FieldCode::Run(n) => n as u128,
            };
            total = total + step;
            if total > isize::MAX as u128 {
                return false;
            }
            i = i + 1;
        }
        proof { assert(codes@.take(i as int) =~= codes@); }
        true
    }

    /// The shape with these codes, as received from elsewhere.
    pub fn from_codes(codes: Vec<FieldCode>) -> (r: FieldShape)
        ensures
            r.codes() == codes@,
    {
        FieldShape { codes }
    }

    /// The codes of the shape.
    pub fn to_codes(&self) -> (r: Vec<FieldCode>)
        ensures
            r@ == self.codes(),
    {
        self.duplicate().codes
    }

    /// A copy of the shape.
    pub fn duplicate(&self) -> (r: FieldShape)
        ensures
            r.codes() == self.codes(),
    {
        let mut codes: Vec<FieldCode> = Vec::new();
        let mut i: usize = 0;
        while i < self.codes.len()
            invariant
                i <= self.codes.len(),
                codes@ == self.codes@.take(i as int),
            decreases self.codes.len() - i,
        {
            codes.push(self.codes[i]);
            proof { assert(self.codes@.take(i + 1) =~= self.codes@.take(i as int).push(self.codes@[i as int])); }
            i = i + 1;
        }
        proof { assert(self.codes@.take(i as int) =~= self.codes@); }
        FieldShape { codes }
    }

    /// The centre of the shape; shapes do not define one.
    pub fn center(&self) -> (c: Option<Position>)
        ensures
            c.is_none(),
    {
        None
    }
}

// ---------------------------------------------------------------------------
// decoding a parsed text gives back its tiles
// ---------------------------------------------------------------------------

proof fn lemma_xs_split(l: Seq<u8>, a: int, b: int, c: int, y: int)
    requires
        a <= b <= c,
    ensures
        xs_range(l, a, c, y) == xs_range(l, a, b, y) + xs_range(l, b, c, y),
    decreases b - a,
{
    if a < b {
        lemma_xs_split(l, a + 1, b, c, y);
        let h = if l[a] == 120 { seq![pos(a, y)] } else { seq![] };
        assert(h + (xs_range(l, a + 1, b, y) + xs_range(l, b, c, y))
            =~= (h + xs_range(l, a + 1, b, y)) + xs_range(l, b, c, y));
    } else {
        assert(xs_range(l, a, b, y) =~= Seq::<Position>::empty());
        assert(xs_range(l, a, c, y) =~= Seq::<Position>::empty() + xs_range(l, b, c, y));
    }
}

/// A stretch of one kind holds either only tiles or none.
proof fn lemma_xs_uniform(l: Seq<u8>, a: int, b: int, y: int, k: TileKind)
    requires
        0 <= a <= b <= l.len(),
        forall|t: int| a <= t < b ==> kind_of(#[trigger] l[t]) == Some(k),
    ensures
        xs_range(l, a, b, y) == (if k == TileKind::Exists { run_positions(a, b - a, y) } else { seq![] }),
    decreases b - a,
{
    if a < b {
        lemma_xs_uniform(l, a + 1, b, y, k);
        assert(kind_of(l[a]) == Some(k));
        if k == TileKind::Exists {
            assert(seq![pos(a, y)] + run_positions(a + 1, b - (a + 1), y) =~= run_positions(a, b - a, y));
        } else {
            assert(Seq::<Position>::empty() + Seq::<Position>::empty() =~= Seq::<Position>::empty());
        }
    } else {
        assert(run_positions(a, 0, y) =~= Seq::<Position>::empty());
    }
}

/// Decoding the runs of a row, followed by the codes of the rows above it.
proof fn lemma_decode_runs(l: Seq<u8>, i: int, start: int, y: int, rest: Seq<Seq<u8>>)
    requires
        0 <= start <= i <= l.len(),
        start < l.len(),
        l.len() <= u32::MAX,
        first_bad(l, 0).is_none(),
        forall|t: int| start <= t < i ==> kind_of(#[trigger] l[t]) == kind_of(l[start]),
        forall|col: int, kind: TileKind|
            #[trigger] decode_from(encode_lines(rest), y, col, kind) == xs_lines(rest, y + 1),
    ensures
        decode_from(runs_from(l, i, start) + encode_lines(rest), y, start, flipped(kind_of(l[start]).unwrap()))
            == xs_range(l, start, l.len() as int, y) + xs_lines(rest, y + 1),
    decreases l.len() - i,
{
    lemma_all_valid(l, 0);
    let k0 = kind_of(l[start]).unwrap();
    let tail = encode_lines(rest);
    if i >= l.len() {
        let run = FieldCode::Run((l.len() - start) as u32);
        assert(runs_from(l, i, start) == seq![run]);
        assert((seq![run] + tail).drop_first() =~= tail);
        assert((seq![run] + tail)[0] == run);
        assert(kind_of(l[start]) == Some(k0));
        lemma_xs_uniform(l, start, l.len() as int, y, k0);
        assert(flipped(flipped(k0)) == k0);
        let n = (l.len() - start) as u32;
        assert(n as int == l.len() - start);
        assert(decode_from(tail, y, start + n, k0) == xs_lines(rest, y + 1));
        assert(decode_from(seq![run] + tail, y, start, flipped(k0)) ==
            (if k0 == TileKind::Exists { run_positions(start, n as int, y) } else { seq![] })
                + decode_from(tail, y, start + n, k0));
    } else if i > start && kind_of(l[i]) != kind_of(l[start]) {
        let run = FieldCode::Run((i - start) as u32);
        let inner = runs_from(l, i + 1, i);
        assert(runs_from(l, i, start) == seq![run] + inner);
        assert((seq![run] + inner + tail).drop_first() =~= inner + tail);
        assert((seq![run] + inner + tail)[0] == run);
        lemma_xs_uniform(l, start, i, y, k0);
        assert(flipped(kind_of(l[i]).unwrap()) == k0);
        lemma_decode_runs(l, i + 1, i, y, rest);
        lemma_xs_split(l, start, i, l.len() as int, y);
        if k0 == TileKind::Exists {
            assert(run_positions(start, i - start, y) + (xs_range(l, i, l.len() as int, y) + xs_lines(rest, y + 1))
                =~= (run_positions(start, i - start, y) + xs_range(l, i, l.len() as int, y)) + xs_lines(rest, y + 1));
        } else {
            assert(Seq::<Position>::empty() + (xs_range(l, i, l.len() as int, y) + xs_lines(rest, y + 1))
                =~= (Seq::<Position>::empty() + xs_range(l, i, l.len() as int, y)) + xs_lines(rest, y + 1));
        }
    } else {
        assert(runs_from(l, i, start) == runs_from(l, i + 1, start));
        lemma_decode_runs(l, i + 1, start, y, rest);
    }
}

proof fn lemma_all_valid(l: Seq<u8>, i: int)
    requires
        0 <= i,
        first_bad(l, i).is_none(),
    ensures
        forall|t: int| i <= t < l.len() ==> kind_of(#[trigger] l[t]).is_some(),
    decreases l.len() - i,
{
    if i < l.len() {
        lemma_all_valid(l, i + 1);
    }
}

/// Decoding the codes of valid rows gives their tiles, whatever state decoding starts in.
proof fn lemma_decode_lines(ls: Seq<Seq<u8>>, y: int)
    requires
        first_invalid(ls).is_none(),
        forall|k: int| 0 <= k < ls.len() ==> (#[trigger] ls[k]).len() <= u32::MAX,
    ensures
        forall|col: int, kind: TileKind|
            #[trigger] decode_from(encode_lines(ls), y, col, kind) == xs_lines(ls, y + 1),
    decreases ls.len(),
{
    if ls.len() > 0 {
        let l = ls[0];
        let rest = ls.drop_first();
        assert(first_bad(l, 0).is_none());
        assert(first_invalid(rest).is_none());
        assert(l.len() <= u32::MAX);
        assert forall|k: int| 0 <= k < rest.len() implies (#[trigger] rest[k]).len() <= u32::MAX by {
            assert(rest[k] == ls[k + 1]);
        }
        lemma_decode_lines(rest, y + 1);
        let h = FieldCode::Row { starts: header(l) };
        let runs = runs_from(l, 0, 0);
        let all = encode_lines(ls);
        assert(all == (seq![h] + runs) + encode_lines(rest));
        assert(all[0] == h);
        assert(all.drop_first() =~= runs + encode_lines(rest));
        assert(xs_lines(ls, y + 1) == xs_range(l, 0, l.len() as int, y + 1) + xs_lines(rest, y + 2));
        if l.len() == 0 {
            assert(runs =~= Seq::<FieldCode>::empty());
            assert(runs + encode_lines(rest) =~= encode_lines(rest));
            assert(xs_range(l, 0, 0, y + 1) =~= Seq::<Position>::empty());
            assert(xs_lines(ls, y + 1) =~= xs_lines(rest, y + 2));
        } else {
            lemma_decode_runs(l, 0, 0, y + 1, rest);
        }
        assert forall|col: int, kind: TileKind|
            #[trigger] decode_from(encode_lines(ls), y, col, kind) == xs_lines(ls, y + 1) by {
            assert(decode_from(all, y, col, kind) == decode_from(all.drop_first(), y + 1, 0, flipped(header(l))));
        }
    }
}

/// The lines of a text are no longer than the text.
proof fn lemma_split_short(s: Seq<u8>, start: int, j: int)
    requires
        0 <= start <= j <= s.len(),
    ensures
        forall|k: int| 0 <= k < split_from(s, start, j).len() ==> (#[trigger] split_from(s, start, j)[k]).len() <= s.len(),
    decreases s.len() - j,
{
    if j < s.len() {
        if s[j] == 10 {
            lemma_split_short(s, j + 1, j + 1);
            let sp = split_from(s, start, j);
            let tl = split_from(s, j + 1, j + 1);
            assert(sp == seq![s.subrange(start, j)] + tl);
            assert forall|k: int| 0 <= k < sp.len() implies (#[trigger] sp[k]).len() <= s.len() by {
                if k > 0 {
                    assert(sp[k] == tl[k - 1]);
                }
            }
        } else {
            lemma_split_short(s, start, j + 1);
            assert(split_from(s, start, j) == split_from(s, start, j + 1));
        }
    } else {
        assert(split_from(s, start, j) == seq![s.subrange(start, s.len() as int)]);
    }
}

/// Reading a text as a shape and decoding it gives back exactly the tiles the text marks with
/// `x`, row by row from the last line up, left to right within a row.
pub proof fn lemma_decode_parsed(bytes: Seq<u8>)
    requires
        bytes.len() <= MAX_SHAPE_TEXT,
        first_invalid(rows_of(bytes)).is_none(),
    ensures
        decoded(encode_lines(rows_of(bytes))) == tiles_of(bytes),
{
    let rows = rows_of(bytes);
    lemma_split_short(bytes, 0, 0);
    assert forall|k: int| 0 <= k < rows.len() implies (#[trigger] rows[k]).len() <= u32::MAX by {
        assert(rows[k] == split_lines(bytes)[split_lines(bytes).len() - 1 - k]);
    }
    lemma_decode_lines(rows, -1);
    assert(decode_from(encode_lines(rows), -1, 0, TileKind::Void) == xs_lines(rows, 0));
}


// ---------------------------------------------------------------------------
// blank fields: the plain list-of-tiles form of a layout
// ---------------------------------------------------------------------------

/// A board layout as the list of its tile positions.
#[derive(Debug)]
pub struct BlankField {
    positions: Vec<Position>,
}

/// The text of a blank field holds a byte other than `x`, `o` and the line breaks.
#[derive(PartialEq, Eq, Clone, Copy, Debug, Structural)]
pub struct InvalidCharacter;

/// Every byte of the rows is `x` or `o`.
pub open spec fn blank_rows_valid(ls: Seq<Seq<u8>>) -> bool {
    forall|k: int, t: int| 0 <= k < ls.len() && 0 <= t < ls[k].len() ==>
        (#[trigger] ls[k][t] == 120 || ls[k][t] == 111)
}

proof fn lemma_valid_rows_no_invalid(ls: Seq<Seq<u8>>)
    requires
        blank_rows_valid(ls),
    ensures
        first_invalid(ls).is_none(),
    decreases ls.len(),
{
    if ls.len() > 0 {
        assert forall|t: int| 0 <= t < ls[0].len() implies kind_of(#[trigger] ls[0][t]).is_some() by {
            assert(ls[0][t] == 120 || ls[0][t] == 111);
        }
        lemma_first_bad_none(ls[0], 0);
        assert forall|k: int, t: int| 0 <= k < ls.drop_first().len() && 0 <= t < ls.drop_first()[k].len() implies
            (#[trigger] ls.drop_first()[k][t] == 120 || ls.drop_first()[k][t] == 111) by {
            assert(ls.drop_first()[k] == ls[k + 1]);
        }
        lemma_valid_rows_no_invalid(ls.drop_first());
    }
}

/// The two readings of a layout agree: a text that loads as a blank field (only `x` and `o`)
/// also reads as a shape, and decoding the shape gives exactly the blank field's tiles.
pub proof fn lemma_layout_readings_agree(bytes: Seq<u8>)
    requires
        bytes.len() <= MAX_SHAPE_TEXT,
        blank_rows_valid(rows_of(bytes)),
    ensures
        first_invalid(rows_of(bytes)).is_none(),
        decoded(encode_lines(rows_of(bytes))) == tiles_of(bytes),
{
    lemma_valid_rows_no_invalid(rows_of(bytes));
    lemma_decode_parsed(bytes);
}

/// The bytes of a shape text: `x`, `o`, space and the line break.
pub open spec fn shape_byte(b: u8) -> bool {
    b == 120 || b == 111 || b == 32 || b == 10
}

/// Every byte of every line split off from index `j` on stands for a tile kind, where the
/// current line (from `start`) has no line break so far and the text has only shape bytes.
proof fn lemma_split_kinds(s: Seq<u8>, start: int, j: int)
    requires
        0 <= start <= j <= s.len(),
        forall|i: int| 0 <= i < s.len() ==> shape_byte(#[trigger] s[i]),
        forall|i: int| start <= i < j ==> #[trigger] s[i] != 10,
    ensures
        forall|k: int, t: int| 0 <= k < split_from(s, start, j).len() && 0 <= t < split_from(s, start, j)[k].len()
            ==> kind_of(#[trigger] split_from(s, start, j)[k][t]).is_some(),
    decreases s.len() - j,
{
    let sp = split_from(s, start, j);
    if j >= s.len() {
        assert forall|k: int, t: int| 0 <= k < sp.len() && 0 <= t < sp[k].len()
            implies kind_of(#[trigger] sp[k][t]).is_some() by {
            assert(sp[k][t] == s[start + t]);
            assert(shape_byte(s[start + t]));
        }
    } else if s[j] == 10 {
        lemma_split_kinds(s, j + 1, j + 1);
        let tl = split_from(s, j + 1, j + 1);
        assert forall|k: int, t: int| 0 <= k < sp.len() && 0 <= t < sp[k].len()
            implies kind_of(#[trigger] sp[k][t]).is_some() by {
            if k == 0 {
                assert(sp[0][t] == s[start + t]);
                assert(shape_byte(s[start + t]));
            } else {
                assert(sp[k] == tl[k - 1]);
            }
        }
    } else {
        lemma_split_kinds(s, start, j + 1);
    }
}

proof fn lemma_kinds_no_invalid(ls: Seq<Seq<u8>>)
    requires
        forall|k: int, t: int| 0 <= k < ls.len() && 0 <= t < ls[k].len() ==> kind_of(#[trigger] ls[k][t]).is_some(),
    ensures
        first_invalid(ls).is_none(),
    decreases ls.len(),
{
    if ls.len() > 0 {
        assert forall|t: int| 0 <= t < ls[0].len() implies kind_of(#[trigger] ls[0][t]).is_some() by {
            assert(kind_of(ls[0][t]).is_some());
        }
        lemma_first_bad_none(ls[0], 0);
        assert forall|k: int, t: int| 0 <= k < ls.drop_first().len() && 0 <= t < ls.drop_first()[k].len() implies
            kind_of(#[trigger] ls.drop_first()[k][t]).is_some() by {
            assert(ls.drop_first()[k] == ls[k + 1]);
        }
        lemma_kinds_no_invalid(ls.drop_first());
    }
}

/// Spaces are holes: a text made only of `x`, `o`, spaces and line breaks reads as a shape,
/// and decoding the shape gives exactly the tiles the text marks with `x`, row by row from
/// the last line up, left to right; a space, like `o`, gives no tile.
pub proof fn lemma_spaces_are_holes(bytes: Seq<u8>)
    requires
        bytes.len() <= MAX_SHAPE_TEXT,
        forall|i: int| 0 <= i < bytes.len() ==> shape_byte(#[trigger] bytes[i]),
    ensures
        first_invalid(rows_of(bytes)).is_none(),
        decoded(encode_lines(rows_of(bytes))) == tiles_of(bytes),
{
    lemma_split_kinds(bytes, 0, 0);
    let sp = split_lines(bytes);
    let rows = rows_of(bytes);
    assert forall|k: int, t: int| 0 <= k < rows.len() && 0 <= t < rows[k].len()
        implies kind_of(#[trigger] rows[k][t]).is_some() by {
        assert(rows[k] == sp[sp.len() - 1 - k]);
        assert(kind_of(sp[sp.len() - 1 - k][t]).is_some());
    }
    lemma_kinds_no_invalid(rows);
    lemma_decode_parsed(bytes);
}

/// The largest x among the first `n` positions and 0.
pub open spec fn max_x(ps: Seq<Position>, n: int) -> int
    decreases n,
{
    if n <= 0 { 0 } else { let m = max_x(ps, n - 1); if ps[n - 1].x > m { ps[n - 1].x as int } else { m } }
}

pub open spec fn max_y(ps: Seq<Position>, n: int) -> int
    decreases n,
{
    if n <= 0 { 0 } else { let m = max_y(ps, n - 1); if ps[n - 1].y > m { ps[n - 1].y as int } else { m } }
}

pub open spec fn min_x(ps: Seq<Position>, n: int) -> int
    decreases n,
{
    if n <= 0 { 0 } else { let m = min_x(ps, n - 1); if ps[n - 1].x < m { ps[n - 1].x as int } else { m } }
}

pub open spec fn min_y(ps: Seq<Position>, n: int) -> int
    decreases n,
{
    if n <= 0 { 0 } else { let m = min_y(ps, n - 1); if ps[n - 1].y < m { ps[n - 1].y as int } else { m } }
}

/// The middle of the bounding box of the positions together with the origin.
pub open spec fn box_center(ps: Seq<Position>) -> Position {
    let n = ps.len() as int;
    pos(min_x(ps, n) + (max_x(ps, n) - min_x(ps, n)) / 2, min_y(ps, n) + (max_y(ps, n) - min_y(ps, n)) / 2)
}

/// The first candidate that is one of the positions.
pub open spec fn first_member(cands: Seq<Position>, ps: Seq<Position>) -> Option<Position>
    decreases cands.len(),
{
    if cands.len() == 0 {
        None
    } else if ps.contains(cands[0]) {
        Some(cands[0])
    } else {
        first_member(cands.drop_first(), ps)
    }
}

/// The centre of a layout: the middle of its bounding box (taken together with the origin) if
/// that is a tile, else the first of its neighbours, in direction order, that is a tile.
pub open spec fn layout_center(ps: Seq<Position>) -> Option<Position> {
    let c = box_center(ps);
    first_member(seq![c] + spec_neighbors(c), ps)
}

/// Coordinates small enough for the bounding box arithmetic.
pub open spec fn moderate(ps: Seq<Position>) -> bool {
    forall|i: int| 0 <= i < ps.len() ==>
        -(isize::MAX / 2) <= (#[trigger] ps[i]).x <= isize::MAX / 2 && -(isize::MAX / 2) <= ps[i].y <= isize::MAX / 2
}

proof fn lemma_xs_lines_push(ls: Seq<Seq<u8>>, l: Seq<u8>, y: int)
    ensures
        xs_lines(ls.push(l), y) == xs_lines(ls, y) + xs_range(l, 0, l.len() as int, y + ls.len()),
    decreases ls.len(),
{
    if ls.len() == 0 {
        assert(ls.push(l).drop_first() =~= ls);
        assert(xs_lines(ls, y + 1) =~= Seq::<Position>::empty());
        assert(xs_lines(ls, y) =~= Seq::<Position>::empty());
        assert(xs_lines(ls.push(l), y) == xs_range(l, 0, l.len() as int, y) + xs_lines(ls, y + 1));
        assert(xs_lines(ls.push(l), y) =~= xs_lines(ls, y) + xs_range(l, 0, l.len() as int, y + ls.len()));
    } else {
        lemma_xs_lines_push(ls.drop_first(), l, y + 1);
        assert(ls.push(l).drop_first() =~= ls.drop_first().push(l));
        assert(xs_lines(ls.push(l), y) =~= xs_lines(ls, y) + xs_range(l, 0, l.len() as int, y + ls.len()));
    }
}

pub fn contains_position(ps: &Vec<Position>, p: Position) -> (r: bool)
    ensures
        r == ps@.contains(p),
{
    let mut i: usize = 0;
    while i < ps.len()
        invariant
            i <= ps.len(),
            forall|t: int| 0 <= t < i ==> ps@[t] != p,
        decreases ps.len() - i,
    {
        if ps[i] == p {
            assert(ps@[i as int] == p);
            return true;
        }
        i = i + 1;
    }
    false
}

impl BlankField {
    /// The tile positions of the layout.
    pub fn positions(&self) -> (r: &Vec<Position>)
        ensures
            r@ == self.view_positions(),
    {
        &self.positions
    }

    pub closed spec fn view_positions(&self) -> Seq<Position> {
        self.positions@
    }

    /// Whether the coordinates of the layout are small enough for its centre to be computed.
    pub fn is_moderate(&self) -> (r: bool)
        ensures
            r == moderate(self.view_positions()),
    {
        let ps = &self.positions;
        let mut i: usize = 0;
        while i < ps.len()
            invariant
                i <= ps.len(),
                ps@ == self.view_positions(),
                forall|j: int| 0 <= j < i ==>
                    -(isize::MAX / 2) <= (#[trigger] ps@[j]).x <= isize::MAX / 2 && -(isize::MAX / 2) <= ps@[j].y <= isize::MAX / 2,
            decreases ps.len() - i,
        {
            let p = ps[i];
            if p.x < -(isize::MAX / 2) || p.x > isize::MAX / 2 || p.y < -(isize::MAX / 2) || p.y > isize::MAX / 2 {
                return false;
            }
            i = i + 1;
        }
        true
    }

    /// Reads a layout from its text form: rows from the last line to the first, `x` a tile and
    /// `o` a hole; any other byte is refused.
    pub fn load(bytes: &[u8]) -> (r: Result<BlankField, InvalidCharacter>)
        requires
            bytes.len() <= MAX_SHAPE_TEXT,
        ensures
            match r {
                Ok(field) => blank_rows_valid(rows_of(bytes@)) && field.view_positions() == tiles_of(bytes@),
                Err(_) => !blank_rows_valid(rows_of(bytes@)),
            },
    {
        let (ranges, Ghost(lines)) = line_ranges(bytes);
        let nl = ranges.len();
        let ghost rows = rows_of(bytes@);
        let mut v: Vec<Position> = Vec::new();
        let mut k: usize = nl;
        while k > 0
            invariant
                nl == ranges.len(),
                nl <= bytes.len() + 1,
                lines == split_lines(bytes@),
                rows == lines.reverse(),
                rows.len() == nl,
                bytes.len() <= MAX_SHAPE_TEXT,
                k <= nl,
                forall|t: int| 0 <= t < nl ==> (#[trigger] ranges[t]).0 <= ranges[t].1 <= bytes.len(),
                forall|t: int| 0 <= t < nl ==> lines[t] == bytes@.subrange((#[trigger] ranges[t]).0 as int, ranges[t].1 as int),
                blank_rows_valid(rows.take(nl - k)),
                v@ == xs_lines(rows.take(nl - k), 0),
            decreases k,
        {
            let ls = ranges[k - 1].0;
            let le = ranges[k - 1].1;
            let ghost l = bytes@.subrange(ls as int, le as int);
            let ghost ri: int = nl - k;
            proof {
                assert(rows[ri] == lines[k - 1]);
                assert(rows.take(ri + 1) =~= rows.take(ri).push(l));
            }
            let row = (nl - k) as isize;
            let len = le - ls;
            let ghost before = v@;
            let mut x: usize = 0;
            proof {
                assert(xs_range(l, 0, 0, ri) =~= Seq::<Position>::empty());
                assert(before + xs_range(l, 0, 0, ri) =~= before);
            }
            while x < len
                invariant
                    ls <= le <= bytes.len(),
                    bytes.len() <= MAX_SHAPE_TEXT,
                    len == le - ls,
                    l == bytes@.subrange(ls as int, le as int),
                    x <= len,
                    row == ri,
                    0 <= ri < rows.len(),
                    rows == rows_of(bytes@),
                    rows[ri] == l,
                    forall|t: int| 0 <= t < x ==> (#[trigger] l[t] == 120 || l[t] == 111),
                    v@ == before + xs_range(l, 0, x as int, ri),
                decreases len - x,
            {
                let b = bytes[ls + x];
                assert(b == l[x as int]);
                proof {
                    lemma_xs_split(l, 0, x as int, x + 1, ri);
                    assert(xs_range(l, x + 1, x + 1, ri) =~= Seq::<Position>::empty());
                }
                if b == 120 {
                    v.push(Position::new(x as isize, row));
                    proof {
                        assert(xs_range(l, x as int, x + 1, ri) =~= seq![pos(x as int, ri)]);
                        assert(v@ =~= before + xs_range(l, 0, x + 1, ri));
                    }
                } else if b == 111 {
                    proof {
                        assert(xs_range(l, x as int, x + 1, ri) =~= Seq::<Position>::empty());
                        assert(v@ =~= before + xs_range(l, 0, x + 1, ri));
                    }
                } else {
                    proof {
                        assert(rows[ri][x as int] == b);
                    }
                    return Err(InvalidCharacter);
                }
                x = x + 1;
            }
            proof {
                lemma_xs_lines_push(rows.take(ri), l, 0);
                assert(rows.take(ri).len() == ri);
                assert forall|a: int, t: int| 0 <= a < rows.take(ri + 1).len() && 0 <= t < rows.take(ri + 1)[a].len() implies
                    (#[trigger] rows.take(ri + 1)[a][t] == 120 || rows.take(ri + 1)[a][t] == 111) by {
                    if a < ri {
                        assert(rows.take(ri + 1)[a] == rows.take(ri)[a]);
                    }
                }
            }
            k = k - 1;
        }
        proof {
            assert(rows.take(nl as int) =~= rows);
        }
        Ok(BlankField { positions: v })
    }

    /// The centre of the layout: the middle of its bounding box, taken together with the
    /// origin, if that is a tile; else the first of its neighbours, in direction order, that is
    /// a tile; else none.
    pub fn center(&self) -> (c: Option<Position>)
        requires
            moderate(self.view_positions()),
        ensures
            c == layout_center(self.view_positions()),
    {
        let ps = &self.positions;
        let ghost s = ps@;
        let mut maxx: isize = 0;
        let mut maxy: isize = 0;
        let mut minx: isize = 0;
        let mut miny: isize = 0;
        let mut i: usize = 0;
        while i < ps.len()
            invariant
                i <= ps.len(),
                s == ps@,
                moderate(s),
                maxx == max_x(s, i as int),
                maxy == max_y(s, i as int),
                minx == min_x(s, i as int),
                miny == min_y(s, i as int),
                0 <= maxx <= isize::MAX / 2,
                0 <= maxy <= isize::MAX / 2,
                -(isize::MAX / 2) <= minx <= 0,
                -(isize::MAX / 2) <= miny <= 0,
            decreases ps.len() - i,
        {
            let p = ps[i];
            assert(p == s[i as int]);
            if p.x > maxx { maxx = p.x; }
            if p.y > maxy { maxy = p.y; }
            if p.x < minx { minx = p.x; }
            if p.y < miny { miny = p.y; }
            i = i + 1;
        }
        let low = Position::new(minx, miny);
        let high = Position::new(maxx, maxy);
        let abs_center = low.add(high.sub(low).div(2));
        proof {
            assert(abs_center == box_center(s));
        }
        let ghost cands = seq![abs_center] + spec_neighbors(abs_center);
        proof {
            assert(cands[0] == abs_center);
            assert(cands.drop_first() =~= spec_neighbors(abs_center));
        }
        if contains_position(ps, abs_center) {
            return Some(abs_center);
        }
        let neighbors = abs_center.neighbor_list();
        proof {
            assert(neighbors@.skip(0) =~= neighbors@);
        }
        let mut j: usize = 0;
        while j < neighbors.len()
            invariant
                j <= neighbors.len(),
                s == ps@,
                neighbors@ == spec_neighbors(abs_center),
                abs_center == box_center(s),
                s == self.view_positions(),
                cands == seq![abs_center] + spec_neighbors(abs_center),
                first_member(cands, s) == first_member(neighbors@.skip(j as int), s),
            decreases neighbors.len() - j,
        {
            let q = neighbors[j];
            proof {
                assert(neighbors@.skip(j as int)[0] == q);
                assert(neighbors@.skip(j as int).drop_first() =~= neighbors@.skip(j + 1));
            }
            if contains_position(ps, q) {
                proof {
                    assert(neighbors@.skip(j as int).len() > 0);
                    assert(first_member(neighbors@.skip(j as int), s) == Some(q));
                    assert(abs_center == box_center(self.view_positions()));
                }
                return Some(q);
            }
            j = j + 1;
        }
        proof {
            assert(neighbors@.skip(j as int).len() == 0);
        }
        None
    }
}

/// One of the shapes, drawn at random (`rand::seq::SliceRandom::choose` on the thread's random
/// generator): none exactly when there are no shapes, as its documentation says, and otherwise
/// one of them; which one is left to chance and is not stated.
#[verifier::external_body]
fn choose_shape(shapes: &Vec<FieldShape>) -> (r: Option<&FieldShape>)
    ensures
        shapes.len() == 0 <==> r.is_none(),
        r matches Some(s) ==> shapes@.contains(*s),
{
    rand::seq::SliceRandom::choose(shapes.as_slice(), &mut rand::thread_rng())
}

/// A shape drawn at random among the loaded ones.
pub fn take_one(shapes: &Vec<FieldShape>) -> (r: &FieldShape)
    requires
        shapes.len() > 0,
    ensures
        shapes@.contains(*r),
{
    choose_shape(shapes).unwrap()
}

} // verus!
