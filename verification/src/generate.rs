//! The pattern-generation subsystem: builds the initial flat liveness grid
//! from explicit coordinates, a random density, or a plain-text pattern.

use vstd::prelude::*;

use crate::life::{Config, filled, is_binary, lemma_index_in_range};

verus! {

/// Why a generator rejected its input.
#[derive(Clone, Copy, PartialEq, Eq, Structural, Debug)]
pub enum GeneratorError {
    /// A pattern entry, after applying its offset, falls outside the grid.
    OutOfBounds,
    /// A non-comment pattern line holds a character other than `.` or `O`.
    BadCharacter,
}

/// The grid a `Result` holds, seen as a sequence.
pub open spec fn result_view(r: Result<Vec<u32>, GeneratorError>) -> Result<
    Seq<u32>,
    GeneratorError,
> {
    match r {
        Ok(v) => Ok(v@),
        Err(e) => Err(e),
    }
}

/// A source of initial grid state.  Evaluating a generator against a
/// configuration yields one cell per grid position, each dead or alive.
pub trait Generator: Sized {
    /// The descriptor's own validity condition.
    spec fn valid(self) -> bool;

    /// Builds the initial liveness grid for `config`.
    fn generate(self, config: &Config) -> (r: Result<Vec<u32>, GeneratorError>)
        requires
            self.valid(),
            config.wf(),
            config.area() <= usize::MAX,
        ensures
            r matches Ok(g) ==> g@.len() == config.area() && is_binary(g@),
    ;
}

/// The flat row-major index of the cell at column `x`, row `y`.
pub open spec fn pos_index(c: Config, x: int, y: int) -> int {
    y * c.width + x
}

/// Every listed point, after translation, lies inside the grid.
pub open spec fn raw_in_bounds(ps: Seq<(u32, u32)>, c: Config, xo: int, yo: int) -> bool {
    forall|j: int|
        0 <= j < ps.len() ==> (#[trigger] ps[j]).0 + xo < c.width && ps[j].1 + yo < c.height
}

/// Cell `i` is one of the listed points after translation.
pub open spec fn raw_cell_live(ps: Seq<(u32, u32)>, c: Config, xo: int, yo: int, i: int) -> bool {
    exists|j: int|
        0 <= j < ps.len() && pos_index(c, (#[trigger] ps[j]).0 + xo, ps[j].1 + yo) == i
}

/// The grid whose live cells are exactly the listed points after translation.
pub open spec fn raw_grid(ps: Seq<(u32, u32)>, c: Config, xo: int, yo: int) -> Seq<u32> {
    Seq::new(
        c.area() as nat,
        |i: int|
            if raw_cell_live(ps, c, xo, yo, i) {
                1u32
            } else {
                0u32
            },
    )
}

/// What generating from an explicit coordinate list yields: the translated
/// points alive and every other cell dead, or an out-of-bounds rejection.
pub open spec fn raw_generate_spec(ps: Seq<(u32, u32)>, c: Config, xo: int, yo: int) -> Result<
    Seq<u32>,
    GeneratorError,
> {
    if raw_in_bounds(ps, c, xo, yo) {
        Ok(raw_grid(ps, c, xo, yo))
    } else {
        Err(GeneratorError::OutOfBounds)
    }
}

/// An explicit list of live-cell coordinates plus a placement translation.
pub struct RawData {
    pub positions: Vec<(u32, u32)>,
    pub x_offset: u32,
    pub y_offset: u32,
}

impl Generator for RawData {
    open spec fn valid(self) -> bool {
        true
    }

    #[verifier::loop_isolation(false)]
    fn generate(self, config: &Config) -> (r: Result<Vec<u32>, GeneratorError>)
        ensures
            result_view(r) == raw_generate_spec(
                self.positions@,
                *config,
                self.x_offset as int,
                self.y_offset as int,
            ),
    {
        let ghost ps = self.positions@;
        let ghost c = *config;
        let ghost xo = self.x_offset as int;
        let ghost yo = self.y_offset as int;
        let w = config.width;
        let h = config.height;
        assert((w as u64) * (h as u64) <= 0xffff_ffff_ffff_ffff) by (nonlinear_arith)
            requires
                w <= 0xffff_ffff,
                h <= 0xffff_ffff,
        ;
        let n = ((w as u64) * (h as u64)) as usize;
        let mut data = filled(n, 0);
        let m = self.positions.len();
        let mut k: usize = 0;
        while k < m
            invariant
                k <= m,
                data@.len() == c.area(),
                raw_in_bounds(ps.take(k as int), c, xo, yo),
                forall|i: int|
                    0 <= i < c.area() ==> data@[i] == (if raw_cell_live(
                        ps.take(k as int),
                        c,
                        xo,
                        yo,
                        i,
                    ) {
                        1u32
                    } else {
                        0u32
                    }),
            decreases m - k,
        {
            let (x, y) = self.positions[k];
            let gx = (x as u64) + (self.x_offset as u64);
            let gy = (y as u64) + (self.y_offset as u64);
            if gx >= (w as u64) || gy >= (h as u64) {
                proof {
                    assert(!raw_in_bounds(ps, c, xo, yo)) by {
                        assert(ps[k as int].0 + xo >= c.width || ps[k as int].1 + yo >= c.height);
                    }
                }
                return Err(GeneratorError::OutOfBounds);
            }
            proof {
                lemma_index_in_range(c, gx as int, gy as int);
            }
            let i: usize = (gy as usize) * (w as usize) + (gx as usize);
            data[i] = 1;
            proof {
                let psk = ps.take(k as int);
                let psk1 = ps.take(k as int + 1);
                assert(psk1[k as int] == ps[k as int]);
                assert(raw_cell_live(psk1, c, xo, yo, i as int));
                assert forall|ii: int| 0 <= ii < c.area() && ii != i as int implies
                    (raw_cell_live(psk1, c, xo, yo, ii) <==> raw_cell_live(
                        psk,
                        c,
                        xo,
                        yo,
                        ii,
                    )) by {
                    if raw_cell_live(psk1, c, xo, yo, ii) {
                        let j = choose|j: int|
                            0 <= j < psk1.len() && pos_index(c, psk1[j].0 + xo, psk1[j].1 + yo)
                                == ii;
                        assert(j < k as int);
                        assert(psk[j] == psk1[j]);
                        assert(raw_cell_live(psk, c, xo, yo, ii));
                    }
                    if raw_cell_live(psk, c, xo, yo, ii) {
                        let j = choose|j: int|
                            0 <= j < psk.len() && pos_index(c, psk[j].0 + xo, psk[j].1 + yo) == ii;
                        assert(psk1[j] == psk[j]);
                        assert(raw_cell_live(psk1, c, xo, yo, ii));
                    }
                }
            }
            k = k + 1;
        }
        proof {
            assert(ps.take(m as int) =~= ps);
            assert(data@ =~= raw_grid(ps, c, xo, yo));
        }
        Ok(data)
    }
}

/// The byte that ends a pattern line.
pub const NEWLINE: u8 = 10;

/// The byte a `\r\n` line ending puts before the newline.
pub const CARRIAGE_RETURN: u8 = 13;

/// The byte (`!`) that opens a comment line.
pub const COMMENT_MARK: u8 = 33;

/// The byte (`.`) that denotes a dead cell.
pub const DEAD_CHAR: u8 = 46;

/// The byte (`O`) that denotes a live cell.
pub const LIVE_CHAR: u8 = 79;

/// A line that begins with `!` is a comment and names no grid row.
pub open spec fn is_comment(line: Seq<u8>) -> bool {
    line.len() > 0 && line[0] == COMMENT_MARK
}

/// Index of the first newline byte of `s`, or `s.len()` if there is none.
pub open spec fn first_newline(s: Seq<u8>) -> int
    decreases s.len(),
{
    if s.len() == 0 {
        0
    } else if s[0] == NEWLINE {
        0
    } else {
        1 + first_newline(s.skip(1))
    }
}

/// `first_newline` lies between 0 and the length of its argument.
pub proof fn lemma_first_newline_bounds(s: Seq<u8>)
    ensures
        0 <= first_newline(s) <= s.len(),
    decreases s.len(),
{
    if s.len() == 0 {
    } else if s[0] == NEWLINE {
    } else {
        lemma_first_newline_bounds(s.skip(1));
    }
}

/// A scan that saw no newline before `k`, and a newline (or the end) at `k`,
/// found `first_newline`.
pub proof fn lemma_first_newline_at(s: Seq<u8>, k: int)
    requires
        0 <= k <= s.len(),
        forall|j: int| 0 <= j < k ==> s[j] != NEWLINE,
        k < s.len() ==> s[k] == NEWLINE,
    ensures
        first_newline(s) == k,
    decreases k,
{
    if s.len() == 0 {
    } else if s[0] == NEWLINE {
        assert(k == 0);
    } else {
        assert(k >= 1);
        lemma_first_newline_at(s.skip(1), k - 1);
    }
}

/// Removes the carriage return a `\r\n` line ending leaves at the end of a
/// split-off line.
pub open spec fn strip_cr(line: Seq<u8>) -> Seq<u8> {
    if line.len() > 0 && line[line.len() - 1] == CARRIAGE_RETURN {
        line.drop_last()
    } else {
        line
    }
}

/// Splits the source into lines the way text lines are read: at every
/// newline, dropping a carriage return directly before it; a last line
/// without a newline is kept whole.
pub open spec fn split_lines(s: Seq<u8>) -> Seq<Seq<u8>>
    decreases s.len(),
    via split_lines_decreases
{
    if s.len() == 0 {
        Seq::empty()
    } else {
        let e = first_newline(s);
        if e == s.len() {
            seq![s]
        } else {
            seq![strip_cr(s.take(e))] + split_lines(s.skip(e + 1))
        }
    }
}

#[via_fn]
proof fn split_lines_decreases(s: Seq<u8>) {
    lemma_first_newline_bounds(s);
}

/// The liveness a pattern character denotes.
pub open spec fn cell_value(ch: u8) -> u32 {
    if ch == LIVE_CHAR {
        1u32
    } else {
        0u32
    }
}

/// Writes the cells of one pattern row into the grid, one character at a
/// time from column `col` on: rejects a character other than `.` or `O`,
/// rejects a translated cell outside the grid, and otherwise records the
/// character's liveness at the translated position.
pub open spec fn fill_cells(
    line: Seq<u8>,
    row: int,
    col: int,
    g: Seq<u32>,
    c: Config,
    xo: int,
    yo: int,
) -> Result<Seq<u32>, GeneratorError>
    decreases line.len(),
{
    if line.len() == 0 {
        Ok(g)
    } else if line[0] != DEAD_CHAR && line[0] != LIVE_CHAR {
        Err(GeneratorError::BadCharacter)
    } else if !(col + xo < c.width && row + yo < c.height) {
        Err(GeneratorError::OutOfBounds)
    } else {
        fill_cells(
            line.skip(1),
            row,
            col + 1,
            g.update(pos_index(c, col + xo, row + yo), cell_value(line[0])),
            c,
            xo,
            yo,
        )
    }
}

/// Writes the pattern rows into the grid in order, skipping comment lines;
/// each non-comment line names the next grid row.
pub open spec fn fill_rows(
    rows: Seq<Seq<u8>>,
    row: int,
    g: Seq<u32>,
    c: Config,
    xo: int,
    yo: int,
) -> Result<Seq<u32>, GeneratorError>
    decreases rows.len(),
{
    if rows.len() == 0 {
        Ok(g)
    } else if is_comment(rows[0]) {
        fill_rows(rows.skip(1), row, g, c, xo, yo)
    } else {
        match fill_cells(rows[0], row, 0, g, c, xo, yo) {
            Ok(g2) => fill_rows(rows.skip(1), row + 1, g2, c, xo, yo),
            Err(e) => Err(e),
        }
    }
}

/// Continues row filling after one row's outcome.
pub open spec fn finish_rows(
    r: Result<Seq<u32>, GeneratorError>,
    rows: Seq<Seq<u8>>,
    row: int,
    c: Config,
    xo: int,
    yo: int,
) -> Result<Seq<u32>, GeneratorError> {
    match r {
        Ok(g) => fill_rows(rows, row, g, c, xo, yo),
        Err(e) => Err(e),
    }
}

/// The grid with every cell dead.
pub open spec fn dead_grid(n: nat) -> Seq<u32> {
    Seq::new(n, |i: int| 0u32)
}

/// What generating from a plain-text pattern yields: the pattern's rows
/// written over an all-dead grid, or the first rejection the row-by-row,
/// column-by-column scan meets.
pub open spec fn plaintext_spec(src: Seq<u8>, c: Config, xo: int, yo: int) -> Result<
    Seq<u32>,
    GeneratorError,
> {
    fill_rows(split_lines(src), 0, dead_grid(c.area() as nat), c, xo, yo)
}

/// Splits pattern text into its lines.
#[verifier::loop_isolation(false)]
fn split_lines_exec(src: &Vec<u8>) -> (lines: Vec<Vec<u8>>)
    ensures
        lines@.map_values(|l: Vec<u8>| l@) == split_lines(src@),
{
    let n = src.len();
    let mut lines: Vec<Vec<u8>> = Vec::new();
    let mut pos: usize = 0;
    proof {
        assert(src@.skip(0) =~= src@);
        assert(lines@.map_values(|l: Vec<u8>| l@) =~= Seq::<Seq<u8>>::empty());
        assert(Seq::<Seq<u8>>::empty() + split_lines(src@) =~= split_lines(src@));
    }
    while pos < n
        invariant
            pos <= n,
            lines@.map_values(|l: Vec<u8>| l@) + split_lines(src@.skip(pos as int)) == split_lines(
                src@,
            ),
        decreases n - pos,
    {
        let ghost rem = src@.skip(pos as int);
        let mut e: usize = pos;
        while e < n && src[e] != NEWLINE
            invariant
                pos <= e <= n,
                forall|j: int| pos <= j < e ==> src@[j] != NEWLINE,
            decreases n - e,
        {
            e = e + 1;
        }
        proof {
            assert forall|j: int| 0 <= j < e - pos implies rem[j] != NEWLINE by {
                assert(rem[j] == src@[pos + j]);
            }
            if (e as int) - (pos as int) < rem.len() {
                assert(rem[e - pos] == src@[e as int]);
            }
            lemma_first_newline_at(rem, e as int - pos as int);
        }
        let end: usize = if e < n && e > pos && src[e - 1] == CARRIAGE_RETURN {
            e - 1
        } else {
            e
        };
        let mut line: Vec<u8> = Vec::new();
        let mut q: usize = pos;
        while q < end
            invariant
                pos <= q <= end <= n,
                line@ == src@.subrange(pos as int, q as int),
            decreases end - q,
        {
            line.push(src[q]);
            q = q + 1;
            proof {
                assert(line@ =~= src@.subrange(pos as int, q as int));
            }
        }
        proof {
            assert(line@ =~= src@.subrange(pos as int, end as int));
            if e == n {
                assert(line@ =~= rem);
                assert(split_lines(rem) == seq![rem]);
                assert(lines@.push(line).map_values(|l: Vec<u8>| l@) =~= lines@.map_values(
                    |l: Vec<u8>| l@,
                ).push(rem));
                assert(lines@.map_values(|l: Vec<u8>| l@).push(rem) =~= lines@.map_values(
                    |l: Vec<u8>| l@,
                ) + seq![rem]);
                assert(split_lines(src@.skip(n as int)) =~= Seq::<Seq<u8>>::empty());
            } else {
                assert(rem.take(e - pos) =~= src@.subrange(pos as int, e as int));
                assert(line@ =~= strip_cr(rem.take(e - pos)));
                assert(split_lines(rem) == seq![strip_cr(rem.take(e - pos))] + split_lines(
                    rem.skip(e - pos + 1),
                ));
                assert(rem.skip(e - pos + 1) =~= src@.skip(e as int + 1));
                assert(lines@.push(line).map_values(|l: Vec<u8>| l@) =~= lines@.map_values(
                    |l: Vec<u8>| l@,
                ).push(line@));
                assert((lines@.map_values(|l: Vec<u8>| l@).push(line@)) + split_lines(
                    src@.skip(e as int + 1),
                ) =~= lines@.map_values(|l: Vec<u8>| l@) + (seq![line@] + split_lines(
                    src@.skip(e as int + 1),
                )));
            }
        }
        lines.push(line);
        if e == n {
            pos = n;
        } else {
            pos = e + 1;
        }
    }
    proof {
        assert(split_lines(src@.skip(n as int)) =~= Seq::<Seq<u8>>::empty());
        assert(lines@.map_values(|l: Vec<u8>| l@) + Seq::<Seq<u8>>::empty() =~= lines@.map_values(
            |l: Vec<u8>| l@,
        ));
    }
    lines
}

/// A textual pattern source (lines of `.` and `O`; `!` lines are comments)
/// plus a placement translation.
pub struct Plaintext {
    pub source: Vec<u8>,
    pub x_offset: u32,
    pub y_offset: u32,
}

impl Generator for Plaintext {
    open spec fn valid(self) -> bool {
        true
    }

    #[verifier::loop_isolation(false)]
    fn generate(self, config: &Config) -> (r: Result<Vec<u32>, GeneratorError>)
        ensures
            result_view(r) == plaintext_spec(
                self.source@,
                *config,
                self.x_offset as int,
                self.y_offset as int,
            ),
    {
        let ghost c = *config;
        let ghost xo = self.x_offset as int;
        let ghost yo = self.y_offset as int;
        let ghost target = plaintext_spec(self.source@, c, xo, yo);
        let lines = split_lines_exec(&self.source);
        let ghost rows = lines@.map_values(|l: Vec<u8>| l@);
        let w = config.width;
        let h = config.height;
        assert((w as u64) * (h as u64) <= 0xffff_ffff_ffff_ffff) by (nonlinear_arith)
            requires
                w <= 0xffff_ffff,
                h <= 0xffff_ffff,
        ;
        let n = ((w as u64) * (h as u64)) as usize;
        let mut data = filled(n, 0);
        proof {
            assert(data@ =~= dead_grid(c.area() as nat));
            assert(rows.skip(0) =~= rows);
        }
        let mut li: usize = 0;
        let mut row: usize = 0;
        while li < lines.len()
            invariant
                li <= lines@.len(),
                row <= li,
                data@.len() == c.area(),
                is_binary(data@),
                fill_rows(rows.skip(li as int), row as int, data@, c, xo, yo) == target,
            decreases lines@.len() - li,
        {
            let line = &lines[li];
            proof {
                assert(rows.skip(li as int)[0] == line@);
            }
            if line.len() > 0 && line[0] == COMMENT_MARK {
                proof {
                    assert(is_comment(line@));
                    assert(rows.skip(li as int).skip(1) =~= rows.skip(li as int + 1));
                }
                li = li + 1;
            } else {
                proof {
                    assert(!is_comment(line@));
                    assert(rows.skip(li as int).skip(1) =~= rows.skip(li as int + 1));
                    assert(line@.skip(0) =~= line@);
                }
                let mut col: usize = 0;
                while col < line.len()
                    invariant
                        col <= line@.len(),
                        data@.len() == c.area(),
                        is_binary(data@),
                        finish_rows(
                            fill_cells(
                                line@.skip(col as int),
                                row as int,
                                col as int,
                                data@,
                                c,
                                xo,
                                yo,
                            ),
                            rows.skip(li as int + 1),
                            row as int + 1,
                            c,
                            xo,
                            yo,
                        ) == target,
                    decreases line@.len() - col,
                {
                    let ch = line[col];
                    proof {
                        assert(line@.skip(col as int)[0] == ch);
                    }
                    if ch != DEAD_CHAR && ch != LIVE_CHAR {
                        return Err(GeneratorError::BadCharacter);
                    }
                    let col_ok = (col as u64) < (w as u64) && (col as u64)
                        + (self.x_offset as u64) < (w as u64);
                    let row_ok = (row as u64) < (h as u64) && (row as u64)
                        + (self.y_offset as u64) < (h as u64);
                    if !col_ok || !row_ok {
                        proof {
                            assert(!(col as int + xo < c.width && row as int + yo < c.height));
                        }
                        return Err(GeneratorError::OutOfBounds);
                    }
                    let gx = (col as u64) + (self.x_offset as u64);
                    let gy = (row as u64) + (self.y_offset as u64);
                    proof {
                        lemma_index_in_range(c, gx as int, gy as int);
                    }
                    let i: usize = (gy as usize) * (w as usize) + (gx as usize);
                    let v: u32 = if ch == LIVE_CHAR {
                        1
                    } else {
                        0
                    };
                    data[i] = v;
                    proof {
                        assert(v == cell_value(ch));
                        assert(i as int == pos_index(c, col as int + xo, row as int + yo));
                        assert(line@.skip(col as int).skip(1) =~= line@.skip(col as int + 1));
                    }
                    col = col + 1;
                }
                proof {
                    assert(line@.skip(col as int) =~= Seq::<u8>::empty());
                    assert(fill_cells(
                        line@.skip(col as int),
                        row as int,
                        col as int,
                        data@,
                        c,
                        xo,
                        yo,
                    ) == Ok::<Seq<u32>, GeneratorError>(data@));
                }
                li = li + 1;
                row = row + 1;
            }
        }
        proof {
            assert(rows.skip(li as int) =~= Seq::<Seq<u8>>::empty());
        }
        Ok(data)
    }
}

/// Rebuildable handle on rand's standard generator.
#[verifier::external_type_specification]
#[verifier::external_body]
pub struct ExStdRng(rand::rngs::StdRng);

/// Relies on rand's `StdRng::seed_from_u64`: builds a generator whose output
/// is determined by the seed.
#[verifier::external_body]
fn rng_from_seed(seed: u64) -> rand::rngs::StdRng {
    <rand::rngs::StdRng as rand::SeedableRng>::seed_from_u64(seed)
}

/// Relies on rand's `StdRng::from_entropy`: builds a generator seeded from
/// operating-system entropy.
#[verifier::external_body]
fn rng_from_entropy() -> rand::rngs::StdRng {
    <rand::rngs::StdRng as rand::SeedableRng>::from_entropy()
}

/// Relies on rand's `Rng::gen_ratio`: flips a coin that is true with
/// probability `numerator / denominator`; a zero numerator never comes up
/// true and a full numerator always does.  It panics unless
/// `0 < denominator` and `numerator <= denominator`.
#[verifier::external_body]
fn ratio_flip(rng: &mut rand::rngs::StdRng, numerator: u32, denominator: u32) -> (r: bool)
    requires
        0 < denominator,
        numerator <= denominator,
    ensures
        numerator == 0 ==> !r,
        numerator == denominator ==> r,
{
    rand::Rng::gen_ratio(rng, numerator, denominator)
}

/// Each cell independently alive with probability `numerator / denominator`.
/// With a seed the produced grid is a function of the seed; without one the
/// generator draws from process entropy.
pub struct Random {
    pub numerator: u32,
    pub denominator: u32,
    pub seed: Option<u64>,
}

impl Generator for Random {
    /// The density is a probability: `numerator / denominator` lies in
    /// `[0, 1]`.
    open spec fn valid(self) -> bool {
        0 < self.denominator && self.numerator <= self.denominator
    }

    #[verifier::loop_isolation(false)]
    fn generate(self, config: &Config) -> (r: Result<Vec<u32>, GeneratorError>)
        ensures
            r matches Ok(g) && g@.len() == config.area() && is_binary(g@),
            r matches Ok(g) ==> (self.numerator == 0 ==> crate::life::all_dead(g@)),
            r matches Ok(g) ==> (self.numerator == self.denominator ==> crate::life::all_live(
                g@,
            )),
    {
        let mut rng = match self.seed {
            Some(s) => rng_from_seed(s),
            None => rng_from_entropy(),
        };
        let w = config.width;
        let h = config.height;
        assert((w as u64) * (h as u64) <= 0xffff_ffff_ffff_ffff) by (nonlinear_arith)
            requires
                w <= 0xffff_ffff,
                h <= 0xffff_ffff,
        ;
        let n = ((w as u64) * (h as u64)) as usize;
        let mut data: Vec<u32> = Vec::new();
        let mut k: usize = 0;
        while k < n
            invariant
                k <= n,
                data@.len() == k,
                forall|i: int| 0 <= i < k ==> data@[i] == 0 || data@[i] == 1,
                self.numerator == 0 ==> forall|i: int| 0 <= i < k ==> data@[i] == 0,
                self.numerator == self.denominator ==> forall|i: int|
                    0 <= i < k ==> data@[i] == 1,
            decreases n - k,
        {
            let alive = ratio_flip(&mut rng, self.numerator, self.denominator);
            data.push(if alive { 1 } else { 0 });
            k = k + 1;
        }
        Ok(data)
    }
}

/// The coordinates of a Gosper glider gun, placed ten cells in from the
/// grid's top-left corner.
pub open spec fn glider_gun_positions() -> Seq<(u32, u32)> {
    seq![
        (24u32, 0u32),
        (22u32, 1u32),
        (24u32, 1u32),
        (12u32, 2u32),
        (13u32, 2u32),
        (20u32, 2u32),
        (21u32, 2u32),
        (34u32, 2u32),
        (35u32, 2u32),
        (11u32, 3u32),
        (15u32, 3u32),
        (20u32, 3u32),
        (21u32, 3u32),
        (34u32, 3u32),
        (35u32, 3u32),
        (0u32, 4u32),
        (1u32, 4u32),
        (10u32, 4u32),
        (16u32, 4u32),
        (20u32, 4u32),
        (21u32, 4u32),
        (0u32, 5u32),
        (1u32, 5u32),
        (10u32, 5u32),
        (14u32, 5u32),
        (16u32, 5u32),
        (17u32, 5u32),
        (22u32, 5u32),
        (24u32, 5u32),
        (10u32, 6u32),
        (16u32, 6u32),
        (24u32, 6u32),
        (11u32, 7u32),
        (15u32, 7u32),
        (12u32, 8u32),
        (13u32, 8u32),
    ]
}

/// A ready-made glider-gun descriptor.
#[verifier::rlimit(60)]
pub fn glider_gun() -> (r: RawData)
    ensures
        r.positions@ == glider_gun_positions(),
        r.x_offset == 10,
        r.y_offset == 10,
{
    let mut positions: Vec<(u32, u32)> = Vec::new();
    positions.push((24, 0));
    positions.push((22, 1));
    positions.push((24, 1));
    positions.push((12, 2));
    positions.push((13, 2));
    positions.push((20, 2));
    positions.push((21, 2));
    positions.push((34, 2));
    positions.push((35, 2));
    positions.push((11, 3));
    positions.push((15, 3));
    positions.push((20, 3));
    positions.push((21, 3));
    positions.push((34, 3));
    positions.push((35, 3));
    positions.push((0, 4));
    positions.push((1, 4));
    positions.push((10, 4));
    positions.push((16, 4));
    positions.push((20, 4));
    positions.push((21, 4));
    positions.push((0, 5));
    positions.push((1, 5));
    positions.push((10, 5));
    positions.push((14, 5));
    positions.push((16, 5));
    positions.push((17, 5));
    positions.push((22, 5));
    positions.push((24, 5));
    positions.push((10, 6));
    positions.push((16, 6));
    positions.push((24, 6));
    positions.push((11, 7));
    positions.push((15, 7));
    positions.push((12, 8));
    positions.push((13, 8));
    proof {
        assert(positions@ =~= glider_gun_positions());
    }
    RawData { positions, x_offset: 10, y_offset: 10 }
}

} // verus!
