//! A Conway's Game of Life engine on a fixed-size grid: live/dead cell
//! state, Moore-neighborhood counting under a wrapping (toroidal) or
//! bounded edge policy, simultaneous generation advance, and placement of
//! named, rotatable patterns parsed from text.
use vstd::prelude::*;

pub mod bitset;
pub mod parser;

verus! {

use crate::bitset::bits_of;
use crate::bitset::bits_with_capacity;
use crate::bitset::bits_contains;
use crate::bitset::bits_set;
use crate::bitset::bits_clear;
use crate::bitset::bits_clone;

/// One step of toroidal coordinate arithmetic: `x + d` wrapped into
/// `[0, m)`, for a unit offset `d` and `0 <= x < m`.
pub open spec fn wrap1(x: int, d: int, m: int) -> int {
    if x + d < 0 {
        x + d + m
    } else if x + d >= m {
        x + d - m
    } else {
        x + d
    }
}

pub open spec fn count1(b: bool) -> int {
    if b {
        1
    } else {
        0
    }
}

/// The one fixed rule, per cell: a live cell survives on 2 or 3 live
/// neighbors, a dead cell is born on exactly 3, all else dies or stays
/// dead.
pub open spec fn next_cell(alive: bool, neighbors: int) -> bool {
    if alive {
        2 <= neighbors <= 3
    } else {
        neighbors == 3
    }
}

/// The board: a `width` x `height` grid of cells stored row-major in a
/// packed bit set, a registry of named patterns, and the boundary policy
/// used by neighbor counting and placement.
pub struct Universe {
    width: u32,
    height: u32,
    cells: fixedbitset::FixedBitSet,
    patterns: parser::PatternCollection,
    wrapping: bool,
}

impl Universe {
    /// The bit store holds exactly one bit per cell, the cell count fits
    /// the row-major index arithmetic, and the registry is well formed.
    pub closed spec fn wf(self) -> bool {
        &&& bits_of(self.cells).len() == (self.width as int) * (self.height as int)
        &&& (self.width as int) * (self.height as int) <= u32::MAX as int
        &&& self.patterns.wf()
    }

    pub closed spec fn spec_width(self) -> int {
        self.width as int
    }

    pub closed spec fn spec_height(self) -> int {
        self.height as int
    }

    pub closed spec fn spec_wrapping(self) -> bool {
        self.wrapping
    }

    pub closed spec fn spec_patterns(self) -> parser::PatternCollection {
        self.patterns
    }

    /// The whole board as a row-major sequence of liveness bits.
    pub closed spec fn spec_cells(self) -> Seq<bool> {
        bits_of(self.cells)
    }

    /// Whether the cell in the given row and column is alive.
    pub open spec fn cell_at(self, row: int, col: int) -> bool {
        self.spec_cells()[row * self.spec_width() + col]
    }

    /// An all-dead grid of the given dimensions, with an empty pattern
    /// registry and the bounded edge policy.
    pub fn new(width: u32, height: u32) -> (r: Self)
        requires
            (width as int) * (height as int) <= u32::MAX as int,
        ensures
            r.wf(),
            r.spec_width() == width,
            r.spec_height() == height,
            !r.spec_wrapping(),
            r.spec_cells() == Seq::new(((width as int) * (height as int)) as nat, |i: int| false),
            forall|row: int, col: int|
                0 <= row < height && 0 <= col < width ==> !r.cell_at(row, col),
            forall|n: Seq<char>| r.spec_patterns().spec_get(n) is None,
    {
        let size = (width * height) as usize;
        let cells = bits_with_capacity(size);
        let patterns = parser::PatternCollection::new();
        let r = Universe { width, height, cells, patterns, wrapping: false };
        proof {
            assert forall|row: int, col: int|
                0 <= row < height && 0 <= col < width implies !r.cell_at(row, col) by {
                lemma_row_major_bounds(row, col, width as int, height as int);
            }
        }
        r
    }

    pub fn wrapping(&self) -> (r: bool)
        ensures
            r == self.spec_wrapping(),
    {
        self.wrapping
    }

    /// Switches the boundary policy; cell state is untouched.
    pub fn set_wrapping(&mut self, wrapping: bool)
        ensures
            final(self).spec_wrapping() == wrapping,
            final(self).spec_width() == old(self).spec_width(),
            final(self).spec_height() == old(self).spec_height(),
            final(self).spec_cells() == old(self).spec_cells(),
            final(self).spec_patterns() == old(self).spec_patterns(),
            final(self).wf() == old(self).wf(),
    {
        self.wrapping = wrapping;
    }

    pub fn width(&self) -> (r: u32)
        ensures
            r == self.spec_width(),
    {
        self.width
    }

    pub fn height(&self) -> (r: u32)
        ensures
            r == self.spec_height(),
    {
        self.height
    }

    /// The row-major index of a cell; callers must bounds-check.
    pub fn get_index(&self, row: u32, column: u32) -> (r: usize)
        requires
            self.wf(),
            row < self.spec_height(),
            column < self.spec_width(),
        ensures
            r == row * self.spec_width() + column,
            r < self.spec_cells().len(),
    {
        proof {
            lemma_row_major_bounds(row as int, column as int, self.spec_width(), self.spec_height());
        }
        (row * self.width + column) as usize
    }

    /// Whether the given cell is alive; callers must bounds-check.
    pub fn contains(&self, row: u32, col: u32) -> (r: bool)
        requires
            self.wf(),
            row < self.spec_height(),
            col < self.spec_width(),
        ensures
            r == self.cell_at(row as int, col as int),
    {
        let idx = self.get_index(row, col);
        bits_contains(&self.cells, idx)
    }

    /// Whether the Moore neighbor of the cell at the given unit offset is
    /// alive: wrapped around the edges under the wrapping policy, and
    /// absent (dead) beyond them under the bounded policy.
    pub open spec fn neighbor_live(self, row: int, col: int, dr: int, dc: int) -> bool {
        if self.spec_wrapping() {
            self.cell_at(
                wrap1(row, dr, self.spec_height()),
                wrap1(col, dc, self.spec_width()),
            )
        } else {
            &&& 0 <= row + dr < self.spec_height()
            &&& 0 <= col + dc < self.spec_width()
            &&& self.cell_at(row + dr, col + dc)
        }
    }

    /// How many of the eight Moore neighbors are alive.
    pub open spec fn live_neighbors(self, row: int, col: int) -> int {
        count1(self.neighbor_live(row, col, -1, -1)) + count1(
            self.neighbor_live(row, col, -1, 0),
        ) + count1(self.neighbor_live(row, col, -1, 1)) + count1(
            self.neighbor_live(row, col, 0, -1),
        ) + count1(self.neighbor_live(row, col, 0, 1)) + count1(
            self.neighbor_live(row, col, 1, -1),
        ) + count1(self.neighbor_live(row, col, 1, 0)) + count1(
            self.neighbor_live(row, col, 1, 1),
        )
    }

    /// The cell's liveness in the next generation.
    pub open spec fn step_cell(self, row: int, col: int) -> bool {
        next_cell(self.cell_at(row, col), self.live_neighbors(row, col))
    }

    fn neighbor_alive(&self, row: u32, col: u32, dr: i32, dc: i32) -> (b: bool)
        requires
            self.wf(),
            row < self.spec_height(),
            col < self.spec_width(),
            -1 <= dr <= 1,
            -1 <= dc <= 1,
        ensures
            b == self.neighbor_live(row as int, col as int, dr as int, dc as int),
    {
        if self.wrapping {
            let nr: u32 = if dr < 0 {
                if row == 0 {
                    self.height - 1
                } else {
                    row - 1
                }
            } else if dr > 0 {
                if row + 1 == self.height {
                    0
                } else {
                    row + 1
                }
            } else {
                row
            };
            let nc: u32 = if dc < 0 {
                if col == 0 {
                    self.width - 1
                } else {
                    col - 1
                }
            } else if dc > 0 {
                if col + 1 == self.width {
                    0
                } else {
                    col + 1
                }
            } else {
                col
            };
            let idx = self.get_index(nr, nc);
            bits_contains(&self.cells, idx)
        } else {
            if dr < 0 && row == 0 {
                return false;
            }
            if dr > 0 && row + 1 == self.height {
                return false;
            }
            if dc < 0 && col == 0 {
                return false;
            }
            if dc > 0 && col + 1 == self.width {
                return false;
            }
            let nr: u32 = if dr < 0 {
                row - 1
            } else if dr > 0 {
                row + 1
            } else {
                row
            };
            let nc: u32 = if dc < 0 {
                col - 1
            } else if dc > 0 {
                col + 1
            } else {
                col
            };
            let idx = self.get_index(nr, nc);
            bits_contains(&self.cells, idx)
        }
    }

    fn live_neighbor_count(&self, row: u32, col: u32) -> (count: u8)
        requires
            self.wf(),
            row < self.spec_height(),
            col < self.spec_width(),
        ensures
            count == self.live_neighbors(row as int, col as int),
    {
        let mut count: u8 = 0;
        if self.neighbor_alive(row, col, -1, -1) {
            count += 1;
        }
        if self.neighbor_alive(row, col, -1, 0) {
            count += 1;
        }
        if self.neighbor_alive(row, col, -1, 1) {
            count += 1;
        }
        if self.neighbor_alive(row, col, 0, -1) {
            count += 1;
        }
        if self.neighbor_alive(row, col, 0, 1) {
            count += 1;
        }
        if self.neighbor_alive(row, col, 1, -1) {
            count += 1;
        }
        if self.neighbor_alive(row, col, 1, 0) {
            count += 1;
        }
        if self.neighbor_alive(row, col, 1, 1) {
            count += 1;
        }
        count
    }

    /// Advances the whole board one generation at once: every cell's next
    /// state is computed from the current generation before any cell is
    /// replaced.
    pub fn update(&mut self)
        requires
            old(self).wf(),
        ensures
            final(self).wf(),
            final(self).spec_width() == old(self).spec_width(),
            final(self).spec_height() == old(self).spec_height(),
            final(self).spec_wrapping() == old(self).spec_wrapping(),
            final(self).spec_patterns() == old(self).spec_patterns(),
            forall|r: int, c: int|
                0 <= r < old(self).spec_height() && 0 <= c < old(self).spec_width()
                    ==> final(self).cell_at(r, c) == old(self).step_cell(r, c),
    {
        let ghost w = self.spec_width();
        let mut next = bits_clone(&self.cells);
        let mut row: u32 = 0;
        while row < self.height
            invariant
                *self == *old(self),
                self.wf(),
                row <= self.spec_height(),
                bits_of(next).len() == self.spec_cells().len(),
                forall|r: int, c: int|
                    0 <= r < row && 0 <= c < w ==> bits_of(next)[#[trigger] (r * w + c)]
                        == self.step_cell(r, c),
                w == self.spec_width(),
            decreases self.spec_height() - row,
        {
            let mut col: u32 = 0;
            while col < self.width
                invariant
                    *self == *old(self),
                    self.wf(),
                    row < self.spec_height(),
                    col <= self.spec_width(),
                    bits_of(next).len() == self.spec_cells().len(),
                    forall|r: int, c: int|
                        0 <= r < row && 0 <= c < w ==> bits_of(next)[#[trigger] (r * w + c)]
                            == self.step_cell(r, c),
                    forall|c: int|
                        0 <= c < col ==> bits_of(next)[#[trigger] (row * w + c)]
                            == self.step_cell(row as int, c),
                    w == self.spec_width(),
                decreases self.spec_width() - col,
            {
                let idx = self.get_index(row, col);
                let cell = bits_contains(&self.cells, idx);
                let live = self.live_neighbor_count(row, col);
                let alive = if cell {
                    live == 2 || live == 3
                } else {
                    live == 3
                };
                proof {
                    assert(alive == self.step_cell(row as int, col as int));
                }
                let ghost prev = bits_of(next);
                bits_set(&mut next, idx, alive);
                proof {
                    assert forall|r: int, c: int|
                        0 <= r < row && 0 <= c < w implies bits_of(next)[#[trigger] (r * w + c)]
                        == self.step_cell(r, c) by {
                        lemma_row_major_bounds(r, c, w, self.spec_height());
                        if r * w + c == row * w + col {
                            lemma_row_major_injective(r, c, row as int, col as int, w);
                        } else {
                            assert(bits_of(next)[r * w + c] == prev[r * w + c]);
                        }
                    }
                }
                col += 1;
            }
            row += 1;
        }
        self.cells = next;
    }

    /// The row-major index a placed offset lands on, if it lands at all:
    /// wrapped into range under the wrapping policy, dropped past the
    /// edge under the bounded policy.
    pub open spec fn place_target(self, row: int, col: int, off: (u32, u32)) -> Option<int> {
        if self.spec_wrapping() {
            if self.spec_width() > 0 && self.spec_height() > 0 {
                Some(
                    ((row + off.0) % self.spec_height()) * self.spec_width() + ((col + off.1)
                        % self.spec_width()),
                )
            } else {
                None
            }
        } else {
            if row + off.0 < self.spec_height() && col + off.1 < self.spec_width() {
                Some((row + off.0) * self.spec_width() + (col + off.1))
            } else {
                None
            }
        }
    }

    /// Writes every offset's target cell alive: all of them under the
    /// wrapping policy, and exactly those within bounds under the bounded
    /// policy, the rest silently dropped; no other cell changes.
    fn put_cells(&mut self, row: u32, column: u32, cells: &Vec<(u32, u32)>)
        requires
            old(self).wf(),
        ensures
            final(self).wf(),
            final(self).spec_width() == old(self).spec_width(),
            final(self).spec_height() == old(self).spec_height(),
            final(self).spec_wrapping() == old(self).spec_wrapping(),
            final(self).spec_patterns() == old(self).spec_patterns(),
            final(self).spec_cells().len() == old(self).spec_cells().len(),
            forall|t: int|
                0 <= t < old(self).spec_cells().len() ==> final(self).spec_cells()[t] == (old(
                    self,
                ).spec_cells()[t] || exists|k: int|
                    0 <= k < cells@.len() && (#[trigger] old(self).place_target(
                        row as int,
                        column as int,
                        cells@[k],
                    )) == Some(t)),
    {
        if self.width == 0 || self.height == 0 {
            return;
        }
        let ghost w = self.spec_width();
        let ghost h = self.spec_height();
        let ghost len = self.spec_cells().len() as int;
        let mut k: usize = 0;
        while k < cells.len()
            invariant
                k <= cells@.len(),
                self.wf(),
                self.spec_width() == w,
                self.spec_height() == h,
                w > 0,
                h > 0,
                self.spec_wrapping() == old(self).spec_wrapping(),
                self.spec_patterns() == old(self).spec_patterns(),
                self.spec_cells().len() == len,
                old(self).spec_cells().len() == len,
                old(self).spec_width() == w,
                old(self).spec_height() == h,
                forall|t: int|
                    0 <= t < len ==> self.spec_cells()[t] == (old(self).spec_cells()[t] || exists|
                        k2: int,
                    |
                        0 <= k2 < k && (#[trigger] old(self).place_target(
                            row as int,
                            column as int,
                            cells@[k2],
                        )) == Some(t)),
            decreases cells@.len() - k,
        {
            let off = cells[k];
            let dr = off.0;
            let dc = off.1;
            let ghost prev = self.spec_cells();
            let ghost target = old(self).place_target(row as int, column as int, cells@[k as int]);
            if self.wrapping {
                let nr = ((row as u64 + dr as u64) % (self.height as u64)) as u32;
                let nc = ((column as u64 + dc as u64) % (self.width as u64)) as u32;
                let idx = self.get_index(nr, nc);
                bits_set(&mut self.cells, idx, true);
                proof {
                    assert(target == Some(idx as int));
                    lemma_extend_targets(
                        *old(self),
                        *self,
                        prev,
                        row as int,
                        column as int,
                        cells@,
                        k as int,
                        idx as int,
                    );
                }
            } else {
                let tr = row as u64 + dr as u64;
                let tc = column as u64 + dc as u64;
                if tr < self.height as u64 && tc < self.width as u64 {
                    let idx = self.get_index(tr as u32, tc as u32);
                    bits_set(&mut self.cells, idx, true);
                    proof {
                        assert(target == Some(idx as int));
                        lemma_extend_targets(
                            *old(self),
                            *self,
                            prev,
                            row as int,
                            column as int,
                            cells@,
                            k as int,
                            idx as int,
                        );
                    }
                } else {
                    proof {
                        assert(target is None);
                        assert forall|t: int|
                            0 <= t < len implies self.spec_cells()[t] == (old(
                            self,
                        ).spec_cells()[t] || exists|k2: int|
                            0 <= k2 < k + 1 && (#[trigger] old(self).place_target(
                                row as int,
                                column as int,
                                cells@[k2],
                            )) == Some(t)) by {
                            if exists|k2: int|
                                0 <= k2 < k + 1 && (#[trigger] old(self).place_target(
                                    row as int,
                                    column as int,
                                    cells@[k2],
                                )) == Some(t) {
                                let k2 = choose|k2: int|
                                    0 <= k2 < k + 1 && (#[trigger] old(self).place_target(
                                        row as int,
                                        column as int,
                                        cells@[k2],
                                    )) == Some(t);
                                assert(k2 < k);
                            }
                        }
                    }
                }
            }
            k += 1;
        }
    }

    /// Places a registered pattern, rotated by `rotation` quarter-turns,
    /// with its origin at the given cell; an unregistered name is a
    /// silent no-op, and so is every offset the bounded policy drops.
    pub fn put_pattern(&mut self, row: u32, column: u32, name: String, rotation: u8)
        requires
            old(self).wf(),
        ensures
            final(self).wf(),
            final(self).spec_width() == old(self).spec_width(),
            final(self).spec_height() == old(self).spec_height(),
            final(self).spec_wrapping() == old(self).spec_wrapping(),
            final(self).spec_patterns() == old(self).spec_patterns(),
            final(self).spec_cells().len() == old(self).spec_cells().len(),
            match old(self).spec_patterns().spec_get(name@) {
                None => final(self).spec_cells() == old(self).spec_cells(),
                Some(p) => forall|t: int|
                    0 <= t < old(self).spec_cells().len() ==> final(self).spec_cells()[t] == (old(
                        self,
                    ).spec_cells()[t] || exists|k: int|
                        0 <= k < parser::rotate_cells(p.spec_cells(), rotation as int).len() && (
                        #[trigger] old(self).place_target(
                            row as int,
                            column as int,
                            parser::rotate_cells(p.spec_cells(), rotation as int)[k],
                        )) == Some(t)),
            },
    {
        let rotated: Option<Vec<(u32, u32)>> = match self.patterns.get(&name) {
            Some(p) => Some(p.rotate(rotation)),
            None => None,
        };
        match rotated {
            Some(cs) => {
                self.put_cells(row, column, &cs);
            },
            None => {},
        }
    }

    /// Parses pattern text and upserts the result into the registry,
    /// handing back the parsed name so the caller can reference it at
    /// once; a parse failure propagates and leaves everything untouched.
    pub fn insert_pattern(&mut self, string: String) -> (r: Result<String, parser::Error>)
        requires
            old(self).wf(),
            string@.len() <= u32::MAX as nat,
        ensures
            final(self).wf(),
            final(self).spec_width() == old(self).spec_width(),
            final(self).spec_height() == old(self).spec_height(),
            final(self).spec_wrapping() == old(self).spec_wrapping(),
            final(self).spec_cells() == old(self).spec_cells(),
            match r {
                Ok(nm) => {
                    &&& parser::parse_result(string@) matches Some(pr)
                        && nm@ == pr.0
                        && (final(self).spec_patterns().spec_get(pr.0) matches Some(p)
                            && p.spec_name() == pr.0
                            && p.spec_cells() == pr.1)
                        && (forall|n: Seq<char>|
                            n != pr.0 ==> final(self).spec_patterns().spec_get(n) == old(
                                self,
                            ).spec_patterns().spec_get(n))
                },
                Err(e) => {
                    &&& parser::parse_result(string@) is None
                    &&& e == parser::Error::ParseError
                    &&& final(self).spec_patterns() == old(self).spec_patterns()
                },
            },
    {
        let pattern = match parser::Pattern::parse(string.as_str()) {
            Ok(p) => p,
            Err(e) => {
                return Err(e);
            },
        };
        let name = pattern.name();
        self.patterns.insert(pattern);
        Ok(name)
    }

    /// The offsets of a registered pattern turned `rotation` quarter-
    /// turns, ready for placement or an overlay preview; nothing when the
    /// name is unregistered.
    pub fn pattern_cells(&self, name: &String, rotation: u8) -> (r: Option<Vec<(u32, u32)>>)
        requires
            self.wf(),
        ensures
            match self.spec_patterns().spec_get(name@) {
                Some(p) => r matches Some(cs) && cs@ == parser::rotate_cells(
                    p.spec_cells(),
                    rotation as int,
                ),
                None => r is None,
            },
    {
        match self.patterns.get(name) {
            Some(p) => Some(p.rotate(rotation)),
            None => None,
        }
    }

    /// Flips one cell's liveness; callers must bounds-check.
    pub fn toggle_cell(&mut self, row: u32, col: u32)
        requires
            old(self).wf(),
            row < old(self).spec_height(),
            col < old(self).spec_width(),
        ensures
            final(self).wf(),
            final(self).spec_width() == old(self).spec_width(),
            final(self).spec_height() == old(self).spec_height(),
            final(self).spec_wrapping() == old(self).spec_wrapping(),
            final(self).spec_patterns() == old(self).spec_patterns(),
            final(self).cell_at(row as int, col as int) == !old(self).cell_at(
                row as int,
                col as int,
            ),
            forall|r: int, c: int|
                0 <= r < old(self).spec_height() && 0 <= c < old(self).spec_width() && !(r == row
                    && c == col) ==> final(self).cell_at(r, c) == old(self).cell_at(r, c),
    {
        let ghost w = self.spec_width();
        let idx = self.get_index(row, col);
        let cur = bits_contains(&self.cells, idx);
        bits_set(&mut self.cells, idx, !cur);
        proof {
            assert forall|r: int, c: int|
                0 <= r < old(self).spec_height() && 0 <= c < old(self).spec_width() && !(r == row
                    && c == col) implies self.cell_at(r, c) == old(self).cell_at(r, c) by {
                lemma_row_major_bounds(r, c, w, self.spec_height());
                if r * w + c == row * w + col {
                    lemma_row_major_injective(r, c, row as int, col as int, w);
                }
            }
        }
    }

    /// Sets every cell dead; dimensions, policy and patterns stay.
    pub fn clear(&mut self)
        requires
            old(self).wf(),
        ensures
            final(self).wf(),
            final(self).spec_width() == old(self).spec_width(),
            final(self).spec_height() == old(self).spec_height(),
            final(self).spec_wrapping() == old(self).spec_wrapping(),
            final(self).spec_patterns() == old(self).spec_patterns(),
            final(self).spec_cells() == Seq::new(old(self).spec_cells().len(), |i: int| false),
            forall|r: int, c: int|
                0 <= r < old(self).spec_height() && 0 <= c < old(self).spec_width()
                    ==> !final(self).cell_at(r, c),
    {
        let ghost w = self.spec_width();
        bits_clear(&mut self.cells);
        proof {
            assert forall|r: int, c: int|
                0 <= r < old(self).spec_height() && 0 <= c < old(self).spec_width() implies !self
                .cell_at(r, c) by {
                lemma_row_major_bounds(r, c, w, self.spec_height());
            }
        }
    }

    /// Seeds every cell from an externally supplied source of randomness:
    /// `states` holds one independently drawn liveness bit per cell, in
    /// row-major order, so a seeded source reproduces a board exactly.
    pub fn randomize(&mut self, states: &Vec<bool>)
        requires
            old(self).wf(),
            states@.len() == old(self).spec_cells().len(),
        ensures
            final(self).wf(),
            final(self).spec_width() == old(self).spec_width(),
            final(self).spec_height() == old(self).spec_height(),
            final(self).spec_wrapping() == old(self).spec_wrapping(),
            final(self).spec_patterns() == old(self).spec_patterns(),
            final(self).spec_cells() == states@,
    {
        let size = (self.width * self.height) as usize;
        let mut i: usize = 0;
        while i < size
            invariant
                self.wf(),
                i <= size,
                size == self.spec_cells().len(),
                states@.len() == size,
                self.spec_width() == old(self).spec_width(),
                self.spec_height() == old(self).spec_height(),
                self.spec_wrapping() == old(self).spec_wrapping(),
                self.spec_patterns() == old(self).spec_patterns(),
                forall|j: int| 0 <= j < i ==> self.spec_cells()[j] == states@[j],
            decreases size - i,
        {
            bits_set(&mut self.cells, i, states[i]);
            i += 1;
        }
        proof {
            assert(self.spec_cells() =~= states@);
        }
    }
}

/// One placement step extends the set of written targets by one offset:
/// the bit at `idx`, the target of offset `k`, goes alive, and every
/// other bit keeps its account.
proof fn lemma_extend_targets(
    u0: Universe,
    u1: Universe,
    prev: Seq<bool>,
    row: int,
    col: int,
    offs: Seq<(u32, u32)>,
    k: int,
    idx: int,
)
    requires
        0 <= k < offs.len(),
        0 <= idx < prev.len(),
        prev.len() == u0.spec_cells().len(),
        u1.spec_cells() == prev.update(idx, true),
        u0.place_target(row, col, offs[k]) == Some(idx),
        forall|t: int|
            0 <= t < prev.len() ==> prev[t] == (u0.spec_cells()[t] || exists|k2: int|
                0 <= k2 < k && (#[trigger] u0.place_target(row, col, offs[k2])) == Some(t)),
    ensures
        forall|t: int|
            0 <= t < prev.len() ==> u1.spec_cells()[t] == (u0.spec_cells()[t] || exists|k2: int|
                0 <= k2 < k + 1 && (#[trigger] u0.place_target(row, col, offs[k2])) == Some(t)),
{
    assert forall|t: int|
        0 <= t < prev.len() implies u1.spec_cells()[t] == (u0.spec_cells()[t] || exists|k2: int|
        0 <= k2 < k + 1 && (#[trigger] u0.place_target(row, col, offs[k2])) == Some(t)) by {
        if t == idx {
            assert(u1.spec_cells()[t]);
            assert(u0.place_target(row, col, offs[k]) == Some(t));
        } else {
            assert(u1.spec_cells()[t] == prev[t]);
            if exists|k2: int|
                0 <= k2 < k + 1 && (#[trigger] u0.place_target(row, col, offs[k2])) == Some(t) {
                let k2 = choose|k2: int|
                    0 <= k2 < k + 1 && (#[trigger] u0.place_target(row, col, offs[k2])) == Some(
                    t,
                    );
                assert(k2 != k);
                assert(0 <= k2 < k && u0.place_target(row, col, offs[k2]) == Some(t));
            }
        }
    }
}

/// No spontaneous life: on a grid whose cells are all dead, every cell is
/// dead again after one generation step, under either boundary policy.
pub proof fn lemma_no_spontaneous_life(u: Universe, row: int, col: int)
    requires
        forall|r: int, c: int|
            0 <= r < u.spec_height() && 0 <= c < u.spec_width() ==> !u.cell_at(r, c),
        0 <= row < u.spec_height(),
        0 <= col < u.spec_width(),
    ensures
        !u.step_cell(row, col),
{
    assert(u.live_neighbors(row, col) == 0);
}

/// Survival: a live cell with exactly 2 or 3 live neighbors is alive
/// after one generation step.
pub proof fn lemma_survival(u: Universe, row: int, col: int)
    requires
        u.cell_at(row, col),
        2 <= u.live_neighbors(row, col) <= 3,
    ensures
        u.step_cell(row, col),
{
}

/// Row-major index arithmetic: an in-range cell's index lies below h*w.
proof fn lemma_row_major_bounds(row: int, col: int, w: int, h: int)
    by (nonlinear_arith)
    requires
        0 <= row < h,
        0 <= col < w,
    ensures
        0 <= row * w,
        row * w + col < w * h,
{
}

/// Row-major indexing is injective over in-range cells.
proof fn lemma_row_major_injective(r1: int, c1: int, r2: int, c2: int, w: int)
    by (nonlinear_arith)
    requires
        0 <= c1 < w,
        0 <= c2 < w,
        0 <= r1,
        0 <= r2,
        r1 * w + c1 == r2 * w + c2,
    ensures
        r1 == r2,
        c1 == c2,
{
}

} // verus!

