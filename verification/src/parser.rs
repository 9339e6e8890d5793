//! Pattern text parsing, rotation, and the name-keyed pattern registry.
use vstd::prelude::*;

verus! {

/// A line with a trailing carriage return loses it, as when text is split
/// at `\r\n` endings.
pub open spec fn strip_cr(l: Seq<char>) -> Seq<char> {
    if l.len() > 0 && l[l.len() - 1] == '\r' {
        l.drop_last()
    } else {
        l
    }
}

/// The lines of `s` after `cur`, an unfinished line read so far: text is
/// split at every `\n`, each piece loses a trailing `\r`, and a final
/// piece without a line break is a line of its own only when non-empty.
pub open spec fn split_lines_rec(s: Seq<char>, cur: Seq<char>) -> Seq<Seq<char>>
    decreases s.len(),
{
    if s.len() == 0 {
        if cur.len() == 0 {
            Seq::empty()
        } else {
            seq![strip_cr(cur)]
        }
    } else if s[0] == '\n' {
        seq![strip_cr(cur)] + split_lines_rec(s.drop_first(), Seq::empty())
    } else {
        split_lines_rec(s.drop_first(), cur.push(s[0]))
    }
}

/// The lines of `s`.
pub open spec fn split_lines(s: Seq<char>) -> Seq<Seq<char>> {
    split_lines_rec(s, Seq::empty())
}

/// One line, given as a `[start, end)` range of character positions.
pub open spec fn line_view(s: Seq<char>, r: (usize, usize)) -> Seq<char> {
    s.subrange(r.0 as int, r.1 as int)
}

pub open spec fn line_views(s: Seq<char>, rs: Seq<(usize, usize)>) -> Seq<Seq<char>> {
    rs.map(|k: int, r: (usize, usize)| line_view(s, r))
}

pub open spec fn ranges_valid(s: Seq<char>, rs: Seq<(usize, usize)>) -> bool {
    forall|k: int| 0 <= k < rs.len() ==> (#[trigger] rs[k]).0 <= rs[k].1 <= s.len()
}

/// Splits `s` into lines, each returned as a `[start, end)` range of
/// character positions into `s`.
fn split_line_ranges(s: &str) -> (r: Vec<(usize, usize)>)
    ensures
        line_views(s@, r@) == split_lines(s@),
        ranges_valid(s@, r@),
        r@.len() <= s@.len(),
{
    let n = s.unicode_len();
    let mut lines: Vec<(usize, usize)> = Vec::new();
    let mut start: usize = 0;
    let mut i: usize = 0;
    proof {
        assert(s@.subrange(0, n as int) =~= s@);
        assert(s@.subrange(0, 0) =~= Seq::<char>::empty());
        assert(line_views(s@, lines@) =~= Seq::<Seq<char>>::empty());
        assert(Seq::<Seq<char>>::empty() + split_lines(s@) =~= split_lines(s@));
    }
    while i < n
        invariant
            start <= i <= n,
            n == s@.len(),
            lines@.len() <= start,
            ranges_valid(s@, lines@),
            line_views(s@, lines@) + split_lines_rec(
                s@.subrange(i as int, n as int),
                s@.subrange(start as int, i as int),
            ) == split_lines(s@),
        decreases n - i,
    {
        let ghost rest = s@.subrange(i as int, n as int);
        let ghost cur = s@.subrange(start as int, i as int);
        let ghost lv = lines@;
        let c = s.get_char(i);
        proof {
            assert(rest[0] == s@[i as int]);
            assert(rest.drop_first() =~= s@.subrange(i + 1, n as int));
        }
        if c == '\n' {
            let end: usize = if i > start {
                let prev = s.get_char(i - 1);
                if prev == '\r' {
                    i - 1
                } else {
                    i
                }
            } else {
                i
            };
            lines.push((start, end));
            proof {
                let t = split_lines_rec(s@.subrange(i + 1, n as int), Seq::<char>::empty());
                assert(s@.subrange(i + 1, i + 1) =~= Seq::<char>::empty());
                assert(strip_cr(cur) =~= s@.subrange(start as int, end as int));
                assert(line_views(s@, lines@) =~= line_views(s@, lv) + seq![
                    line_view(s@, (start, end)),
                ]);
                assert(split_lines_rec(rest, cur) == seq![strip_cr(cur)] + t);
                assert((line_views(s@, lv) + seq![strip_cr(cur)]) + t =~= line_views(s@, lv) + (
                seq![strip_cr(cur)] + t));
            }
            start = i + 1;
        } else {
            proof {
                assert(cur.push(s@[i as int]) =~= s@.subrange(start as int, i + 1));
            }
        }
        i += 1;
    }
    if start < n {
        let ghost cur = s@.subrange(start as int, n as int);
        let ghost lv = lines@;
        let end: usize = {
            let prev = s.get_char(n - 1);
            if prev == '\r' {
                n - 1
            } else {
                n
            }
        };
        lines.push((start, end));
        proof {
            assert(s@.subrange(n as int, n as int).len() == 0);
            assert(strip_cr(cur) =~= s@.subrange(start as int, end as int));
            assert(line_views(s@, lines@) =~= line_views(s@, lv) + seq![
                line_view(s@, (start, end)),
            ]);
            assert(line_views(s@, lines@) =~= split_lines(s@));
        }
    } else {
        proof {
            assert(s@.subrange(n as int, n as int).len() == 0);
            assert(s@.subrange(start as int, n as int).len() == 0);
            assert(line_views(s@, lines@) + Seq::<Seq<char>>::empty() =~= line_views(s@, lines@));
        }
    }
    lines
}

/// Whether a line opens with the six-character header marker `!Name:`.
pub open spec fn has_name_marker(line: Seq<char>) -> bool {
    &&& line.len() >= 6
    &&& line[0] == '!'
    &&& line[1] == 'N'
    &&& line[2] == 'a'
    &&& line[3] == 'm'
    &&& line[4] == 'e'
    &&& line[5] == ':'
}

/// The index of the first line at or after `i` that carries the `!Name:`
/// marker, if any.
pub open spec fn first_header(lines: Seq<Seq<char>>, i: int) -> Option<int>
    decreases lines.len() - i when 0 <= i <= lines.len()
{
    if i >= lines.len() {
        None
    } else if has_name_marker(lines[i]) {
        Some(i)
    } else {
        first_header(lines, i + 1)
    }
}

/// The position of the first `": "` at or after `j` in the line, if any.
pub open spec fn find_sep(line: Seq<char>, j: int) -> Option<int>
    decreases line.len() - j when 0 <= j
{
    if j + 1 >= line.len() {
        None
    } else if line[j] == ':' && line[j + 1] == ' ' {
        Some(j)
    } else {
        find_sep(line, j + 1)
    }
}

/// A `!`-prefixed comment or metadata line.
pub open spec fn is_comment(line: Seq<char>) -> bool {
    line.len() > 0 && line[0] == '!'
}

/// The index of the first line at or after `i` that is not a comment;
/// the grid block starts there.
pub open spec fn first_grid(lines: Seq<Seq<char>>, i: int) -> int
    decreases lines.len() - i when 0 <= i <= lines.len()
{
    if i >= lines.len() {
        i
    } else if is_comment(lines[i]) {
        first_grid(lines, i + 1)
    } else {
        i
    }
}

/// The live offsets one grid line contributes from column `col` on:
/// one `(row, column)` pair per `O`.
pub open spec fn row_cells(line: Seq<char>, row: u32, col: int) -> Seq<(u32, u32)>
    decreases line.len() - col when 0 <= col <= line.len()
{
    if col >= line.len() {
        Seq::empty()
    } else if line[col] == 'O' {
        seq![(row, col as u32)] + row_cells(line, row, col + 1)
    } else {
        row_cells(line, row, col + 1)
    }
}

/// The live offsets of all grid lines from `g` on, scanned row-major,
/// the line at `g` being pattern row `row`.
pub open spec fn grid_cells(lines: Seq<Seq<char>>, g: int, row: int) -> Seq<(u32, u32)>
    decreases lines.len() - g when 0 <= g <= lines.len()
{
    if g >= lines.len() {
        Seq::empty()
    } else {
        row_cells(lines[g], row as u32, 0) + grid_cells(lines, g + 1, row + 1)
    }
}

/// What parsing pattern text yields: the remainder of the first `!Name:`
/// line after its first `": "`, and the `O` offsets of the grid lines
/// that follow the comment block; or nothing, when the header or the
/// separator is missing.
pub open spec fn parse_result(s: Seq<char>) -> Option<(Seq<char>, Seq<(u32, u32)>)> {
    let lines = split_lines(s);
    match first_header(lines, 0) {
        None => None,
        Some(h) => match find_sep(lines[h], 0) {
            None => None,
            Some(j) => Some(
                (
                    lines[h].subrange(j + 2, lines[h].len() as int),
                    grid_cells(lines, first_grid(lines, h + 1), 0),
                ),
            ),
        },
    }
}

/// Whether line `k` of `lines` opens with the `!Name:` marker.
fn marker_line(s: &str, lines: &Vec<(usize, usize)>, k: usize) -> (r: bool)
    requires
        k < lines@.len(),
        ranges_valid(s@, lines@),
    ensures
        r == has_name_marker(line_views(s@, lines@)[k as int]),
{
    let p = lines[k];
    let a = p.0;
    let b = p.1;
    if b - a < 6 {
        return false;
    }
    let r = s.get_char(a) == '!' && s.get_char(a + 1) == 'N' && s.get_char(a + 2) == 'a'
        && s.get_char(a + 3) == 'm' && s.get_char(a + 4) == 'e' && s.get_char(a + 5) == ':';
    proof {
        let line = line_view(s@, lines@[k as int]);
        assert(line.len() == b - a);
        assert(forall|q: int| 0 <= q < line.len() ==> line[q] == s@[a + q]);
    }
    r
}

/// Whether line `k` of `lines` is a `!`-prefixed comment line.
fn comment_line(s: &str, lines: &Vec<(usize, usize)>, k: usize) -> (r: bool)
    requires
        k < lines@.len(),
        ranges_valid(s@, lines@),
    ensures
        r == is_comment(line_views(s@, lines@)[k as int]),
{
    let p = lines[k];
    if p.1 == p.0 {
        false
    } else {
        s.get_char(p.0) == '!'
    }
}

/// The position of the first `": "` in the line `[a, b)` of `s`, if any.
fn sep_in_line(s: &str, a: usize, b: usize) -> (r: Option<usize>)
    requires
        a <= b <= s@.len(),
    ensures
        match r {
            Some(j) => find_sep(s@.subrange(a as int, b as int), 0) == Some(j as int) && j + 2
                <= b - a,
            None => find_sep(s@.subrange(a as int, b as int), 0) is None,
        },
{
    let ghost line = s@.subrange(a as int, b as int);
    let len = b - a;
    if len < 2 {
        return None;
    }
    let mut j: usize = 0;
    while j < len - 1
        invariant
            j <= len,
            2 <= len,
            len == b - a,
            a <= b <= s@.len(),
            line == s@.subrange(a as int, b as int),
            find_sep(line, 0) == find_sep(line, j as int),
        decreases len - j,
    {
        let c1 = s.get_char(a + j);
        let c2 = s.get_char(a + j + 1);
        if c1 == ':' && c2 == ' ' {
            return Some(j);
        }
        j += 1;
    }
    None
}

/// The largest row offset among the cells, 0 when there are none.
pub open spec fn max_row(cells: Seq<(u32, u32)>) -> int
    decreases cells.len(),
{
    if cells.len() == 0 {
        0
    } else {
        let m = max_row(cells.drop_last());
        if cells.last().0 >= m {
            cells.last().0 as int
        } else {
            m
        }
    }
}

/// The largest column offset among the cells, 0 when there are none.
pub open spec fn max_col(cells: Seq<(u32, u32)>) -> int
    decreases cells.len(),
{
    if cells.len() == 0 {
        0
    } else {
        let m = max_col(cells.drop_last());
        if cells.last().1 >= m {
            cells.last().1 as int
        } else {
            m
        }
    }
}

/// Every cell's offsets lie within the bounding box, and the box corner
/// offsets are non-negative.
pub proof fn lemma_max_bounds(cells: Seq<(u32, u32)>)
    ensures
        0 <= max_row(cells) <= u32::MAX as int,
        0 <= max_col(cells) <= u32::MAX as int,
        forall|k: int|
            0 <= k < cells.len() ==> (#[trigger] cells[k]).0 <= max_row(cells) && cells[k].1
                <= max_col(cells),
    decreases cells.len(),
{
    if cells.len() > 0 {
        lemma_max_bounds(cells.drop_last());
        assert(forall|k: int| 0 <= k < cells.len() - 1 ==> cells[k] == cells.drop_last()[k]);
        assert(cells[cells.len() - 1] == cells.last());
    }
}

/// The smallest row offset among the cells, 0 when there are none.
pub open spec fn min_row(cells: Seq<(u32, u32)>) -> int
    decreases cells.len(),
{
    if cells.len() == 0 {
        0
    } else if cells.len() == 1 {
        cells.last().0 as int
    } else {
        let m = min_row(cells.drop_last());
        if cells.last().0 <= m {
            cells.last().0 as int
        } else {
            m
        }
    }
}

/// The smallest column offset among the cells, 0 when there are none.
pub open spec fn min_col(cells: Seq<(u32, u32)>) -> int
    decreases cells.len(),
{
    if cells.len() == 0 {
        0
    } else if cells.len() == 1 {
        cells.last().1 as int
    } else {
        let m = min_col(cells.drop_last());
        if cells.last().1 <= m {
            cells.last().1 as int
        } else {
            m
        }
    }
}

/// Every cell's offsets lie at or above the smallest ones, which are
/// themselves non-negative.
pub proof fn lemma_min_bounds(cells: Seq<(u32, u32)>)
    ensures
        0 <= min_row(cells),
        0 <= min_col(cells),
        forall|k: int|
            0 <= k < cells.len() ==> (#[trigger] cells[k]).0 >= min_row(cells) && cells[k].1
                >= min_col(cells),
    decreases cells.len(),
{
    if cells.len() > 0 {
        lemma_min_bounds(cells.drop_last());
        assert(forall|k: int| 0 <= k < cells.len() - 1 ==> cells[k] == cells.drop_last()[k]);
        assert(cells[cells.len() - 1] == cells.last());
    }
}

/// The offsets after `count` quarter-turns about the pattern's own
/// bounding box, whose corner is recomputed from the offsets themselves;
/// the turn count wraps at four, and an empty pattern stays empty.
pub open spec fn rotate_cells(cells: Seq<(u32, u32)>, count: int) -> Seq<(u32, u32)> {
    if cells.len() == 0 {
        cells
    } else {
        let mr = max_row(cells);
        let mc = max_col(cells);
        if count % 4 == 0 {
            cells
        } else if count % 4 == 1 {
            cells.map(|k: int, p: (u32, u32)| (p.1, (mr - p.0) as u32))
        } else if count % 4 == 2 {
            cells.map(|k: int, p: (u32, u32)| ((mr - p.0) as u32, (mc - p.1) as u32))
        } else {
            cells.map(|k: int, p: (u32, u32)| ((mc - p.1) as u32, p.0))
        }
    }
}

/// What one quarter-turn does to the bounding box: a sequence that maps
/// each `(r, c)` to `(c, b - r)` swaps the roles of the two axes and
/// mirrors the row axis against `b`.
proof fn lemma_box_of_turn(cells: Seq<(u32, u32)>, m: Seq<(u32, u32)>, b: int)
    requires
        cells.len() > 0,
        m.len() == cells.len(),
        0 <= b <= u32::MAX as int,
        forall|k: int| 0 <= k < cells.len() ==> (#[trigger] cells[k]).0 <= b,
        forall|k: int|
            0 <= k < cells.len() ==> (#[trigger] m[k]) == (cells[k].1, (b - cells[k].0) as u32),
    ensures
        max_row(m) == max_col(cells),
        min_row(m) == min_col(cells),
        max_col(m) == b - min_row(cells),
        min_col(m) == b - max_row(cells),
    decreases cells.len(),
{
    assert(m[cells.len() - 1] == (cells.last().1, (b - cells.last().0) as u32));
    assert(m.last() == m[cells.len() - 1]);
    if cells.len() == 1 {
        assert(m.drop_last().len() == 0);
        assert(cells.drop_last().len() == 0);
        assert(max_row(m.drop_last()) == 0);
        assert(max_col(m.drop_last()) == 0);
        assert(max_row(cells.drop_last()) == 0);
        assert(max_col(cells.drop_last()) == 0);
        assert(max_row(m) == m.last().0);
        assert(max_col(cells) == cells.last().1);
    } else {
        lemma_box_of_turn(cells.drop_last(), m.drop_last(), b);
        assert(forall|k: int| 0 <= k < cells.len() - 1 ==> cells[k] == cells.drop_last()[k]);
        assert(forall|k: int| 0 <= k < m.len() - 1 ==> m[k] == m.drop_last()[k]);
        assert(cells[cells.len() - 1] == cells.last());
    }
}

/// Rotating by 0 quarter-turns, or by 4, which the turn count wraps to
/// 0, leaves the offsets exactly as they are.
pub proof fn lemma_rotate_identity(cells: Seq<(u32, u32)>)
    ensures
        rotate_cells(cells, 0) == cells,
        rotate_cells(cells, 4) == cells,
{
}

/// Four successive single quarter-turns return a pattern that touches
/// both row 0 and column 0 to its original offsets.
pub proof fn lemma_rotate_four_times(cells: Seq<(u32, u32)>)
    requires
        cells.len() > 0 ==> min_row(cells) == 0 && min_col(cells) == 0,
    ensures
        rotate_cells(rotate_cells(rotate_cells(rotate_cells(cells, 1), 1), 1), 1) == cells,
{
    if cells.len() == 0 {
        // an empty pattern has no bounding box and every turn keeps it
    } else {
        lemma_rotate_four_times_nonempty(cells);
    }
}

/// The non-empty case of the four-turn law.
proof fn lemma_rotate_four_times_nonempty(cells: Seq<(u32, u32)>)
    requires
        cells.len() > 0,
        min_row(cells) == 0,
        min_col(cells) == 0,
    ensures
        rotate_cells(rotate_cells(rotate_cells(rotate_cells(cells, 1), 1), 1), 1) == cells,
{
    let mr = max_row(cells);
    let mc = max_col(cells);
    lemma_max_bounds(cells);
    lemma_min_bounds(cells);
    let s1 = rotate_cells(cells, 1);
    assert(forall|k: int|
        0 <= k < cells.len() ==> (#[trigger] s1[k]) == (cells[k].1, (mr - cells[k].0) as u32));
    lemma_box_of_turn(cells, s1, mr);
    let s2 = rotate_cells(s1, 1);
    assert(forall|k: int|
        0 <= k < s1.len() ==> (#[trigger] s2[k]) == (s1[k].1, (mc - s1[k].0) as u32));
    lemma_box_of_turn(s1, s2, mc);
    let s3 = rotate_cells(s2, 1);
    assert(forall|k: int|
        0 <= k < s2.len() ==> (#[trigger] s3[k]) == (s2[k].1, (mr - s2[k].0) as u32));
    lemma_box_of_turn(s2, s3, mr);
    let s4 = rotate_cells(s3, 1);
    assert(forall|k: int|
        0 <= k < s3.len() ==> (#[trigger] s4[k]) == (s3[k].1, (mc - s3[k].0) as u32));
    assert forall|k: int| 0 <= k < cells.len() implies s4[k] == cells[k] by {
        assert(s1[k].0 == cells[k].1 && s1[k].1 == mr - cells[k].0);
        assert(s2[k].0 == mr - cells[k].0 && s2[k].1 == mc - cells[k].1);
        assert(s3[k].0 == mc - cells[k].1 && s3[k].1 == cells[k].0);
        assert(s4[k].0 == cells[k].0 && s4[k].1 == cells[k].1);
    }
    assert(s4 =~= cells);
}

/// The one recoverable failure: pattern text without a `!Name:` header
/// line, or a header without a `": "` separator.
#[derive(Debug, PartialEq, Eq, Structural)]
pub enum Error {
    ParseError,
}

/// A named set of relative live-cell offsets, `(row, column)` pairs taken
/// literally from the source text (no normalization of the minimum row or
/// column). Immutable once constructed.
#[derive(Clone, Debug)]
pub struct Pattern {
    name: String,
    cells: Vec<(u32, u32)>,
}

impl Pattern {
    pub closed spec fn spec_name(self) -> Seq<char> {
        self.name@
    }

    pub closed spec fn spec_cells(self) -> Seq<(u32, u32)> {
        self.cells@
    }

    pub fn name(&self) -> (r: String)
        ensures
            r@ == self.spec_name(),
    {
        self.name.clone()
    }

    pub fn cells(&self) -> (r: &Vec<(u32, u32)>)
        ensures
            r@ == self.spec_cells(),
    {
        &self.cells
    }

    /// Parses pattern text: lines are scanned for the first `!Name:`
    /// header, whose remainder after the first `": "` names the pattern;
    /// the comment lines after it are skipped; every `O` in the remaining
    /// lines becomes a live offset, in row-major scan order. Fails, with
    /// the text rejected, exactly when no header line or no separator is
    /// found.
    pub fn parse(s: &str) -> (r: Result<Pattern, Error>)
        requires
            s@.len() <= u32::MAX as nat,
        ensures
            match r {
                Ok(p) => parse_result(s@) == Some((p.spec_name(), p.spec_cells())),
                Err(e) => parse_result(s@) is None && e == Error::ParseError,
            },
    {
        let lines = split_line_ranges(s);
        let ghost lv = line_views(s@, lines@);
        let num = lines.len();
        let mut h: usize = 0;
        while h < num && !marker_line(s, &lines, h)
            invariant
                h <= num,
                num == lines@.len(),
                ranges_valid(s@, lines@),
                lv == line_views(s@, lines@),
                first_header(lv, 0) == first_header(lv, h as int),
            decreases num - h,
        {
            h += 1;
        }
        if h == num {
            return Err(Error::ParseError);
        }
        let hr = lines[h];
        let a = hr.0;
        let b = hr.1;
        proof {
            assert(lv[h as int] == s@.subrange(a as int, b as int));
            assert(first_header(lv, 0) == Some(h as int));
        }
        let sep = sep_in_line(s, a, b);
        let j = match sep {
            None => { return Err(Error::ParseError) },
            Some(j) => j,
        };
        let name_str = s.substring_char(a + j + 2, b);
        let name = name_str.to_owned();
        proof {
            assert(lv[h as int].subrange(j + 2, lv[h as int].len() as int) =~= s@.subrange(
                a + j + 2,
                b as int,
            ));
        }
        let mut g = h + 1;
        while g < num && comment_line(s, &lines, g)
            invariant
                h as int + 1 <= g <= num,
                num == lines@.len(),
                ranges_valid(s@, lines@),
                lv == line_views(s@, lines@),
                first_grid(lv, h as int + 1) == first_grid(lv, g as int),
            decreases num - g,
        {
            g += 1;
        }
        proof {
            assert(first_grid(lv, h as int + 1) == g as int);
        }
        let ghost g0 = g as int;
        let mut cells: Vec<(u32, u32)> = Vec::new();
        let mut gi = g;
        proof {
            assert(cells@ + grid_cells(lv, g0, 0) =~= grid_cells(lv, g0, 0));
        }
        while gi < num
            invariant
                0 <= g0 <= gi <= num,
                g0 == g as int,
                num == lines@.len(),
                num <= s@.len() <= u32::MAX as nat,
                ranges_valid(s@, lines@),
                lv == line_views(s@, lines@),
                grid_cells(lv, g0, 0) == cells@ + grid_cells(lv, gi as int, gi - g0),
            decreases num - gi,
        {
            let lr = lines[gi];
            let la = lr.0;
            let lb = lr.1;
            let ghost row = gi - g0;
            let ghost line = lv[gi as int];
            let ghost entry = cells@;
            proof {
                assert(line == s@.subrange(la as int, lb as int));
                assert(grid_cells(lv, gi as int, row) == row_cells(line, row as u32, 0)
                    + grid_cells(lv, gi as int + 1, row + 1));
                assert(entry + (row_cells(line, row as u32, 0) + grid_cells(
                    lv,
                    gi as int + 1,
                    row + 1,
                )) =~= (entry + row_cells(line, row as u32, 0)) + grid_cells(
                    lv,
                    gi as int + 1,
                    row + 1,
                ));
            }
            let mut col: usize = 0;
            while col < lb - la
                invariant
                    col <= lb - la,
                    la <= lb <= s@.len() <= u32::MAX as nat,
                    gi < num,
                    0 <= g0 <= gi,
                    g0 == g as int,
                    num == lines@.len(),
                    lv == line_views(s@, lines@),
                    num <= s@.len(),
                    row == gi - g0,
                    line == s@.subrange(la as int, lb as int),
                    grid_cells(lv, g0, 0) == (cells@ + row_cells(line, row as u32, col as int))
                        + grid_cells(lv, gi as int + 1, row + 1),
                decreases (lb - la) - col,
            {
                let c = s.get_char(la + col);
                let ghost before = cells@;
                if c == 'O' {
                    cells.push(((gi - g) as u32, col as u32));
                }
                proof {
                    assert(line[col as int] == s@[la + col]);
                    if c == 'O' {
                        assert(row_cells(line, row as u32, col as int) == seq![
                            (row as u32, col as u32),
                        ] + row_cells(line, row as u32, col as int + 1));
                        assert(cells@ =~= before + seq![(row as u32, col as u32)]);
                        assert((before + (seq![(row as u32, col as u32)] + row_cells(
                            line,
                            row as u32,
                            col as int + 1,
                        ))) =~= (cells@ + row_cells(line, row as u32, col as int + 1)));
                    } else {
                        assert(row_cells(line, row as u32, col as int) == row_cells(
                            line,
                            row as u32,
                            col as int + 1,
                        ));
                    }
                }
                col += 1;
            }
            proof {
                assert(row_cells(line, row as u32, col as int).len() == 0);
                assert((cells@ + row_cells(line, row as u32, col as int)) =~= cells@);
            }
            gi += 1;
        }
        proof {
            assert(grid_cells(lv, num as int, num - g0).len() == 0);
            assert(cells@ + grid_cells(lv, num as int, num - g0) =~= cells@);
        }
        Ok(Pattern { name, cells })
    }

    /// A fresh offset list turned `count` quarter-turns; the source
    /// pattern is untouched, and its bounding box is recomputed here from
    /// the offsets themselves.
    pub fn rotate(&self, count: u8) -> (r: Vec<(u32, u32)>)
        ensures
            r@ == rotate_cells(self.spec_cells(), count as int),
    {
        let ghost cs = self.cells@;
        let len = self.cells.len();
        if len == 0 {
            let out: Vec<(u32, u32)> = Vec::new();
            proof {
                assert(out@ =~= rotate_cells(cs, count as int));
            }
            return out;
        }
        let mut mr: u32 = 0;
        let mut mc: u32 = 0;
        let mut i: usize = 0;
        while i < len
            invariant
                i <= len,
                len == cs.len(),
                cs == self.cells@,
                mr as int == max_row(cs.subrange(0, i as int)),
                mc as int == max_col(cs.subrange(0, i as int)),
            decreases len - i,
        {
            let p = self.cells[i];
            proof {
                assert(cs.subrange(0, i + 1).drop_last() =~= cs.subrange(0, i as int));
                assert(cs.subrange(0, i + 1).last() == cs[i as int]);
            }
            if p.0 > mr {
                mr = p.0;
            }
            if p.1 > mc {
                mc = p.1;
            }
            i += 1;
        }
        proof {
            assert(cs.subrange(0, len as int) =~= cs);
        }
        let m = count % 4;
        let mut out: Vec<(u32, u32)> = Vec::new();
        let mut k: usize = 0;
        while k < len
            invariant
                k <= len,
                len == cs.len(),
                len > 0,
                cs == self.cells@,
                mr as int == max_row(cs),
                mc as int == max_col(cs),
                m as int == (count as int) % 4,
                out@.len() == k,
                forall|q: int| 0 <= q < k ==> out@[q] == rotate_cells(cs, count as int)[q],
            decreases len - k,
        {
            let p = self.cells[k];
            proof {
                lemma_max_bounds(cs);
                assert(cs[k as int].0 <= mr && cs[k as int].1 <= mc);
            }
            let q: (u32, u32) = if m == 0 {
                p
            } else if m == 1 {
                (p.1, mr - p.0)
            } else if m == 2 {
                (mr - p.0, mc - p.1)
            } else {
                (mc - p.1, p.0)
            };
            out.push(q);
            k += 1;
        }
        proof {
            assert(out@ =~= rotate_cells(cs, count as int));
        }
        out
    }
}

impl core::str::FromStr for Pattern {
    type Err = Error;

    fn from_str(s: &str) -> Result<Self, Self::Err> {
        if s.unicode_len() <= u32::MAX as usize {
            Pattern::parse(s)
        } else {
            Err(Error::ParseError)
        }
    }
}

/// No two patterns in the list share a name.
pub open spec fn names_unique(ps: Seq<Pattern>) -> bool {
    forall|i: int, j: int|
        0 <= i < j < ps.len() ==> ps[i].spec_name() != ps[j].spec_name()
}

/// With unique names, the entry at `i` is the only one under its name.
proof fn lemma_unique_match(ps: Seq<Pattern>, n: Seq<char>, i: int)
    requires
        names_unique(ps),
        0 <= i < ps.len(),
        ps[i].spec_name() == n,
    ensures
        forall|k: int| 0 <= k < ps.len() && (#[trigger] ps[k]).spec_name() == n ==> k == i,
{
    assert forall|k: int|
        0 <= k < ps.len() && (#[trigger] ps[k]).spec_name() == n implies k == i by {
        if k < i {
            assert(ps[k].spec_name() != ps[i].spec_name());
        } else if k > i {
            assert(ps[i].spec_name() != ps[k].spec_name());
        }
    }
}

/// A name-keyed store of patterns: at most one pattern per name, and
/// inserting under a held name replaces the entry and hands the previous
/// pattern back.
pub struct PatternCollection {
    patterns: Vec<Pattern>,
}

impl PatternCollection {
    /// No two entries share a name.
    pub closed spec fn wf(self) -> bool {
        names_unique(self.patterns@)
    }

    /// The entry stored under `name`, if any.
    pub closed spec fn spec_get(self, name: Seq<char>) -> Option<Pattern> {
        if exists|i: int|
            0 <= i < self.patterns@.len() && self.patterns@[i].spec_name() == name {
            Some(
                self.patterns@[choose|i: int|
                    0 <= i < self.patterns@.len() && self.patterns@[i].spec_name() == name],
            )
        } else {
            None
        }
    }

    pub fn new() -> (r: Self)
        ensures
            r.wf(),
            forall|n: Seq<char>| r.spec_get(n) is None,
    {
        PatternCollection { patterns: Vec::new() }
    }

    /// With unique names, the entry at `i` settles a lookup of its name.
    proof fn lemma_spec_get_some(self, n: Seq<char>, i: int)
        requires
            self.wf(),
            0 <= i < self.patterns@.len(),
            self.patterns@[i].spec_name() == n,
        ensures
            self.spec_get(n) == Some(self.patterns@[i]),
    {
        lemma_unique_match(self.patterns@, n, i);
    }

    /// A name no entry carries looks up to nothing.
    proof fn lemma_spec_get_none(self, n: Seq<char>)
        requires
            forall|k: int|
                0 <= k < self.patterns@.len() ==> (#[trigger] self.patterns@[k]).spec_name() != n,
        ensures
            self.spec_get(n) is None,
    {
    }

    /// The pattern stored under exactly this name, if any; no folding or
    /// trimming of the key.
    pub fn get(&self, name: &String) -> (r: Option<&Pattern>)
        requires
            self.wf(),
        ensures
            match r {
                Some(p) => self.spec_get(name@) == Some(*p),
                None => self.spec_get(name@) is None,
            },
    {
        let ghost ps = self.patterns@;
        let len = self.patterns.len();
        let mut i: usize = 0;
        while i < len
            invariant
                i <= len,
                len == ps.len(),
                ps == self.patterns@,
                names_unique(ps),
                forall|k: int| 0 <= k < i ==> (#[trigger] ps[k]).spec_name() != name@,
            decreases len - i,
        {
            let p = &self.patterns[i];
            if p.name == *name {
                proof {
                    self.lemma_spec_get_some(name@, i as int);
                }
                return Some(p);
            }
            i += 1;
        }
        proof {
            self.lemma_spec_get_none(name@);
        }
        None
    }

    /// Upserts by the pattern's own name: a pattern stored under that
    /// name is replaced and handed back, any other entry is untouched.
    pub fn insert(&mut self, pattern: Pattern) -> (r: Option<Pattern>)
        requires
            old(self).wf(),
        ensures
            final(self).wf(),
            r == old(self).spec_get(pattern.spec_name()),
            final(self).spec_get(pattern.spec_name()) == Some(pattern),
            forall|n: Seq<char>|
                n != pattern.spec_name() ==> final(self).spec_get(n) == old(self).spec_get(n),
    {
        let ghost ps = self.patterns@;
        let ghost nm = pattern.spec_name();
        let len = self.patterns.len();
        let mut i: usize = 0;
        while i < len
            invariant
                i <= len,
                len == ps.len(),
                ps == self.patterns@,
                *self == *old(self),
                names_unique(ps),
                nm == pattern.spec_name(),
                forall|k: int| 0 <= k < i ==> (#[trigger] ps[k]).spec_name() != nm,
            decreases len - i,
        {
            if self.patterns[i].name == pattern.name {
                let prev = self.patterns.remove(i);
                self.patterns.insert(i, pattern);
                proof {
                    let v2 = self.patterns@;
                    assert(v2 =~= ps.update(i as int, pattern));
                    assert(ps[i as int].spec_name() == nm);
                    assert forall|a: int, b: int|
                        0 <= a < b < v2.len() implies v2[a].spec_name() != v2[b].spec_name() by {
                        assert(ps[a].spec_name() != ps[b].spec_name());
                    }
                    old(self).lemma_spec_get_some(nm, i as int);
                    self.lemma_spec_get_some(nm, i as int);
                    assert forall|n: Seq<char>|
                        n != nm implies self.spec_get(n) == old(self).spec_get(n) by {
                        if exists|k: int| 0 <= k < ps.len() && (#[trigger] ps[k]).spec_name() == n {
                            let k = choose|k: int|
                                0 <= k < ps.len() && (#[trigger] ps[k]).spec_name() == n;
                            assert(k != i as int);
                            assert(v2[k].spec_name() == n);
                            old(self).lemma_spec_get_some(n, k);
                            self.lemma_spec_get_some(n, k);
                        } else {
                            old(self).lemma_spec_get_none(n);
                            assert forall|k: int|
                                0 <= k < v2.len() implies (#[trigger] v2[k]).spec_name() != n by {
                                if k != i as int {
                                    assert(ps[k].spec_name() != n);
                                }
                            }
                            self.lemma_spec_get_none(n);
                        }
                    }
                }
                return Some(prev);
            }
            i += 1;
        }
        proof {
            old(self).lemma_spec_get_none(nm);
        }
        self.patterns.push(pattern);
        proof {
            let v2 = self.patterns@;
            assert(v2 =~= ps.push(pattern));
            assert forall|a: int, b: int|
                0 <= a < b < v2.len() implies v2[a].spec_name() != v2[b].spec_name() by {
                if b == v2.len() - 1 {
                    assert(v2[a] == ps[a]);
                } else {
                    assert(ps[a].spec_name() != ps[b].spec_name());
                }
            }
            self.lemma_spec_get_some(nm, len as int);
            assert forall|n: Seq<char>|
                n != nm implies self.spec_get(n) == old(self).spec_get(n) by {
                if exists|k: int| 0 <= k < ps.len() && (#[trigger] ps[k]).spec_name() == n {
                    let k = choose|k: int|
                        0 <= k < ps.len() && (#[trigger] ps[k]).spec_name() == n;
                    assert(v2[k].spec_name() == n);
                    old(self).lemma_spec_get_some(n, k);
                    self.lemma_spec_get_some(n, k);
                } else {
                    old(self).lemma_spec_get_none(n);
                    assert forall|k: int|
                        0 <= k < v2.len() implies (#[trigger] v2[k]).spec_name() != n by {
                        if k != len as int {
                            assert(ps[k].spec_name() != n);
                        }
                    }
                    self.lemma_spec_get_none(n);
                }
            }
        }
        None
    }
}

} // verus!
