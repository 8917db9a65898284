//! Grouping the pieces of a cut-up sheet: a grid of paper cells is split
//! into 4-connected groups by a flood fill, each group is inspected for
//! contact with the four sheet edges, and a closed-form count is summed
//! per group after `n` unfoldings of the sheet.

use vstd::prelude::*;

verus! {

/// A grid position.
pub struct Spot {
    pub x: usize,
    pub y: usize,
}

/// One cell of the sheet: empty space, ungrouped paper, or paper already
/// assigned to a group.
#[derive(PartialEq, Eq, Structural, Clone, Copy, Debug)]
pub enum PieceKind {
    Empty,
    Piece,
    Group(u16),
}

/// Which of the four sheet edges a group touches.
#[derive(PartialEq, Eq, Structural, Clone, Copy, Debug)]
pub struct GroupEdges {
    pub top: bool,
    pub bottom: bool,
    pub left: bool,
    pub right: bool,
}

/// The sheet: `h` rows of `w` cells, and the number of groups assigned so
/// far.
pub struct Board {
    pub pieces: Vec<Vec<PieceKind>>,
    pub w: usize,
    pub h: usize,
    pub groups: u16,
}

/// The number of raw paper cells in one row.
pub open spec fn row_piece_count(row: Seq<PieceKind>) -> nat
    decreases row.len(),
{
    if row.len() == 0 {
        0
    } else {
        row_piece_count(row.drop_last()) + (if row.last() == PieceKind::Piece {
            1nat
        } else {
            0
        })
    }
}

/// The number of raw paper cells on the sheet; flooding strictly shrinks
/// it.
pub open spec fn piece_count(rows: Seq<Vec<PieceKind>>) -> nat
    decreases rows.len(),
{
    if rows.len() == 0 {
        0
    } else {
        piece_count(rows.drop_last()) + row_piece_count(rows.last()@)
    }
}

pub proof fn lemma_row_piece_count_drop(row1: Seq<PieceKind>, row2: Seq<PieceKind>, xx: int)
    requires
        row1.len() == row2.len(),
        0 <= xx < row1.len(),
        forall|i: int| 0 <= i < row1.len() && i != xx ==> row1[i] == row2[i],
        row1[xx] == PieceKind::Piece,
        row2[xx] != PieceKind::Piece,
    ensures
        row_piece_count(row2) < row_piece_count(row1),
    decreases row1.len(),
{
    if xx == row1.len() - 1 {
        assert(row1.drop_last() =~= row2.drop_last());
    } else {
        assert(row1.drop_last()[xx] == row1[xx]);
        assert(row2.drop_last()[xx] == row2[xx]);
        lemma_row_piece_count_drop(row1.drop_last(), row2.drop_last(), xx);
        assert(row1.last() == row2.last());
    }
}

/// Turning one cell of raw paper into anything else lowers the piece
/// count.
pub proof fn lemma_piece_count_drop(
    rows1: Seq<Vec<PieceKind>>,
    rows2: Seq<Vec<PieceKind>>,
    xx: int,
    yy: int,
)
    requires
        rows1.len() == rows2.len(),
        0 <= yy < rows1.len(),
        0 <= xx < rows1[yy]@.len(),
        rows1[yy]@.len() == rows2[yy]@.len(),
        forall|j: int| 0 <= j < rows1.len() && j != yy ==> rows1[j] == rows2[j],
        forall|i: int| 0 <= i < rows1[yy]@.len() && i != xx ==> rows1[yy]@[i] == rows2[yy]@[i],
        rows1[yy]@[xx] == PieceKind::Piece,
        rows2[yy]@[xx] != PieceKind::Piece,
    ensures
        piece_count(rows2) < piece_count(rows1),
    decreases rows1.len(),
{
    if yy == rows1.len() - 1 {
        assert(rows1.drop_last() =~= rows2.drop_last());
        lemma_row_piece_count_drop(rows1.last()@, rows2.last()@, xx);
    } else {
        assert(rows1.drop_last()[yy] == rows1[yy]);
        assert(rows2.drop_last()[yy] == rows2[yy]);
        lemma_piece_count_drop(rows1.drop_last(), rows2.drop_last(), xx, yy);
        assert(rows1.last() == rows2.last());
    }
}

impl Board {
    /// The cell at `(xx, yy)`.
    pub open spec fn cell(self, xx: int, yy: int) -> PieceKind {
        self.pieces@[yy]@[xx]
    }

    /// The position lies on the sheet.
    pub open spec fn inb(self, xx: int, yy: int) -> bool {
        0 <= xx < self.w as int && 0 <= yy < self.h as int
    }

    /// The cell array matches the dimensions.
    pub open spec fn wf(self) -> bool {
        &&& self.pieces@.len() == self.h as int
        &&& forall|yy: int|
            0 <= yy < self.h as int ==> (#[trigger] self.pieces@[yy])@.len() == self.w as int
    }

    /// Every group number on the sheet is below `g`.
    pub open spec fn groups_below(self, g: u16) -> bool {
        forall|xx: int, yy: int|
            self.inb(xx, yy) ==> match #[trigger] self.cell(xx, yy) {
                PieceKind::Group(gg) => gg < g,
                _ => true,
            }
    }

    pub fn left(&self, spot: &Spot) -> (r: Option<Spot>)
        requires
            spot.x < self.w,
            spot.y < self.h,
        ensures
            spot.x > 0 ==> (r matches Some(s2) && s2.x == spot.x - 1 && s2.y == spot.y),
            spot.x == 0 ==> r is None,
    {
        if spot.x > 0 {
            Some(Spot { x: spot.x - 1, y: spot.y })
        } else {
            None
        }
    }

    pub fn up(&self, spot: &Spot) -> (r: Option<Spot>)
        requires
            spot.x < self.w,
            spot.y < self.h,
        ensures
            spot.y > 0 ==> (r matches Some(s2) && s2.x == spot.x && s2.y == spot.y - 1),
            spot.y == 0 ==> r is None,
    {
        if spot.y > 0 {
            Some(Spot { x: spot.x, y: spot.y - 1 })
        } else {
            None
        }
    }

    pub fn right(&self, spot: &Spot) -> (r: Option<Spot>)
        requires
            spot.x < self.w,
            spot.y < self.h,
        ensures
            spot.x + 1 < self.w ==> (r matches Some(s2) && s2.x == spot.x + 1 && s2.y == spot.y),
            spot.x + 1 >= self.w ==> r is None,
    {
        if spot.x + 1 < self.w {
            Some(Spot { x: spot.x + 1, y: spot.y })
        } else {
            None
        }
    }

    pub fn down(&self, spot: &Spot) -> (r: Option<Spot>)
        requires
            spot.x < self.w,
            spot.y < self.h,
        ensures
            spot.y + 1 < self.h ==> (r matches Some(s2) && s2.x == spot.x && s2.y == spot.y + 1),
            spot.y + 1 >= self.h ==> r is None,
    {
        if spot.y + 1 < self.h {
            Some(Spot { x: spot.x, y: spot.y + 1 })
        } else {
            None
        }
    }

    /// Assign the cell at `spot` to group `gr`.
    pub fn set_group(&mut self, spot: &Spot, gr: u16)
        requires
            old(self).wf(),
            old(self).inb(spot.x as int, spot.y as int),
        ensures
            final(self).wf(),
            final(self).w == old(self).w,
            final(self).h == old(self).h,
            final(self).groups == old(self).groups,
            final(self).cell(spot.x as int, spot.y as int) == PieceKind::Group(gr),
            forall|xx: int, yy: int|
                old(self).inb(xx, yy) && !(xx == spot.x as int && yy == spot.y as int)
                    ==> final(self).cell(xx, yy) == old(self).cell(xx, yy),
            final(self).pieces@.len() == old(self).pieces@.len(),
            forall|yy: int|
                0 <= yy < old(self).h as int ==> (#[trigger] final(self).pieces@[yy])@.len() == old(
                    self,
                ).pieces@[yy]@.len(),
            forall|yy: int|
                0 <= yy < old(self).h as int && yy != spot.y as int ==> final(self).pieces@[yy]
                    == old(self).pieces@[yy],
            forall|xx: int|
                0 <= xx < old(self).w as int && xx != spot.x as int
                    ==> final(self).pieces@[spot.y as int]@[xx] == old(
                    self,
                ).pieces@[spot.y as int]@[xx],
    {
        let ghost pre = *self;
        let row = &mut self.pieces[spot.y];
        row[spot.x] = PieceKind::Group(gr);
        proof {
            assert(self.pieces@[spot.y as int]@ == pre.pieces@[spot.y as int]@.update(
                spot.x as int,
                PieceKind::Group(gr),
            ));
            assert forall|xx: int, yy: int|
                pre.inb(xx, yy) && !(xx == spot.x as int && yy == spot.y as int)
                    implies self.cell(xx, yy) == pre.cell(xx, yy) by {
                if yy == spot.y as int {
                    assert(self.pieces@[yy]@[xx] == pre.pieces@[yy]@[xx]);
                } else {
                    assert(self.pieces@[yy] == pre.pieces@[yy]);
                }
            }
        }
    }

    /// Does the flood fill still have work to do at `spot`?  Raw paper
    /// does; empty space and already-grouped cells do not.
    pub fn needs_group_at(&self, spot: &Spot, gr: u16) -> (r: bool)
        requires
            self.wf(),
            self.inb(spot.x as int, spot.y as int),
        ensures
            r == (self.cell(spot.x as int, spot.y as int) == PieceKind::Piece),
    {
        match self.pieces[spot.y][spot.x] {
            PieceKind::Empty => false,
            PieceKind::Piece => true,
            PieceKind::Group(_) => false,
        }
    }

    /// Flood group `gr` outwards from `(x, y)`: cells change only from
    /// raw paper into members of the new group, and the start cell itself
    /// is no longer raw paper afterwards.
    #[verifier::loop_isolation(false)]
    #[verifier::rlimit(100)]
    pub fn flood_group(&mut self, x: usize, y: usize, gr: u16)
        requires
            old(self).wf(),
            old(self).inb(x as int, y as int),
            gr < u16::MAX,
        ensures
            final(self).wf(),
            final(self).w == old(self).w,
            final(self).h == old(self).h,
            final(self).groups == old(self).groups,
            forall|xx: int, yy: int|
                old(self).inb(xx, yy) ==> #[trigger] final(self).cell(xx, yy) == old(self).cell(
                    xx,
                    yy,
                ) || (old(self).cell(xx, yy) == PieceKind::Piece && final(self).cell(xx, yy)
                    == PieceKind::Group(gr)),
            final(self).cell(x as int, y as int) != PieceKind::Piece,
            old(self).groups_below(gr) ==> final(self).groups_below((gr + 1) as u16),
    {
        let ghost pre = *self;
        let start = Spot { x, y };
        if !self.needs_group_at(&start, gr) {
            proof {
                if pre.groups_below(gr) {
                    assert forall|xx: int, yy: int| self.inb(xx, yy) implies match #[trigger] self.cell(
                        xx,
                        yy,
                    ) {
                        PieceKind::Group(gg) => gg < gr + 1,
                        _ => true,
                    } by {}
                }
            }
            return ;
        }
        self.set_group(&start, gr);
        let mut stack: Vec<Spot> = Vec::new();
        stack.push(start);
        while stack.len() > 0
            invariant
                self.wf(),
                self.w == pre.w,
                self.h == pre.h,
                self.groups == pre.groups,
                forall|xx: int, yy: int|
                    pre.inb(xx, yy) ==> #[trigger] self.cell(xx, yy) == pre.cell(xx, yy) || (
                    pre.cell(xx, yy) == PieceKind::Piece && self.cell(xx, yy) == PieceKind::Group(
                        gr,
                    )),
                self.cell(x as int, y as int) == PieceKind::Group(gr),
                forall|k: int|
                    0 <= k < stack@.len() ==> self.inb(
                        #[trigger] stack@[k].x as int,
                        stack@[k].y as int,
                    ),
            decreases piece_count(self.pieces@), stack@.len(),
        {
            let s = stack.pop().unwrap();
            if self.needs_group_at(&s, gr) {
                let ghost mid = *self;
                self.set_group(&s, gr);
                proof {
                    lemma_piece_count_drop(mid.pieces@, self.pieces@, s.x as int, s.y as int);
                }
                if s.x > 0 {
                    let s2 = Spot { x: s.x - 1, y: s.y };
                    if self.needs_group_at(&s2, gr) {
                        stack.push(s2);
                    }
                }
                if s.x + 1 < self.w {
                    let s2 = Spot { x: s.x + 1, y: s.y };
                    if self.needs_group_at(&s2, gr) {
                        stack.push(s2);
                    }
                }
                if s.y > 0 {
                    let s2 = Spot { x: s.x, y: s.y - 1 };
                    if self.needs_group_at(&s2, gr) {
                        stack.push(s2);
                    }
                }
                if s.y + 1 < self.h {
                    let s2 = Spot { x: s.x, y: s.y + 1 };
                    if self.needs_group_at(&s2, gr) {
                        stack.push(s2);
                    }
                }
            }
        }
        proof {
            if pre.groups_below(gr) {
                assert forall|xx: int, yy: int| self.inb(xx, yy) implies match #[trigger] self.cell(
                    xx,
                    yy,
                ) {
                    PieceKind::Group(gg) => gg < gr + 1,
                    _ => true,
                } by {
                    assert(pre.inb(xx, yy));
                    assert(self.cell(xx, yy) == pre.cell(xx, yy) || (pre.cell(xx, yy)
                        == PieceKind::Piece && self.cell(xx, yy) == PieceKind::Group(gr)));
                }
            }
        }
    }

    /// Assign every 4-connected region of raw paper its own group number,
    /// scanning the sheet row by row.  Afterwards no raw paper remains and
    /// every group number is below `groups`.
    #[verifier::loop_isolation(false)]
    #[verifier::rlimit(100)]
    pub fn group(&mut self)
        requires
            old(self).wf(),
            old(self).groups_below(0),
            old(self).w as int * old(self).h as int <= u16::MAX as int,
        ensures
            final(self).wf(),
            final(self).w == old(self).w,
            final(self).h == old(self).h,
            forall|xx: int, yy: int|
                old(self).inb(xx, yy) ==> final(self).cell(xx, yy) != PieceKind::Piece,
            forall|xx: int, yy: int|
                old(self).inb(xx, yy) && old(self).cell(xx, yy) == PieceKind::Empty
                    ==> final(self).cell(xx, yy) == PieceKind::Empty,
            final(self).groups_below(final(self).groups),
    {
        let ghost pre = *self;
        let mut gr: u16 = 0;
        let mut y: usize = 0;
        while y < self.h
            invariant
                0 <= y <= self.h,
                self.wf(),
                self.w == pre.w,
                self.h == pre.h,
                gr as int <= y as int * self.w as int,
                self.groups_below(gr),
                forall|xx: int, yy: int|
                    pre.inb(xx, yy) && pre.cell(xx, yy) == PieceKind::Empty
                        ==> #[trigger] self.cell(xx, yy) == PieceKind::Empty,
                forall|xx: int, yy: int|
                    pre.inb(xx, yy) && yy < y as int ==> #[trigger] self.cell(xx, yy)
                        != PieceKind::Piece,
            decreases self.h - y,
        {
            let mut x: usize = 0;
            while x < self.w
                invariant
                    0 <= x <= self.w,
                    y < self.h,
                    self.wf(),
                    self.w == pre.w,
                    self.h == pre.h,
                    gr as int <= y as int * self.w as int + x as int,
                    self.groups_below(gr),
                    forall|xx: int, yy: int|
                        pre.inb(xx, yy) && pre.cell(xx, yy) == PieceKind::Empty
                            ==> #[trigger] self.cell(xx, yy) == PieceKind::Empty,
                    forall|xx: int, yy: int|
                        pre.inb(xx, yy) && (yy < y as int || (yy == y as int && xx < x as int))
                            ==> #[trigger] self.cell(xx, yy) != PieceKind::Piece,
                decreases self.w - x,
            {
                let here = Spot { x, y };
                if self.needs_group_at(&here, gr) {
                    proof {
                        assert((y as int * self.w as int + x as int) + 1 <= self.w as int
                            * self.h as int) by (nonlinear_arith)
                            requires
                                0 <= x < self.w as int,
                                0 <= y < self.h as int,
                        ;
                        assert(gr < u16::MAX);
                    }
                    self.flood_group(x, y, gr);
                    gr = gr + 1;
                }
                x += 1;
            }
            proof {
                assert(gr as int <= (y as int + 1) * self.w as int) by (nonlinear_arith)
                    requires
                        gr as int <= y as int * self.w as int + self.w as int,
                ;
            }
            y += 1;
        }
        proof {
            assert forall|xx: int, yy: int| pre.inb(xx, yy) implies self.cell(xx, yy)
                != PieceKind::Piece by {
                assert(self.cell(xx, yy) != PieceKind::Piece || yy >= y as int);
            }
            assert forall|xx: int, yy: int|
                pre.inb(xx, yy) && pre.cell(xx, yy) == PieceKind::Empty implies self.cell(xx, yy)
                == PieceKind::Empty by {}
        }
        let ghost fin = *self;
        self.groups = gr;
        proof {
            assert forall|xx: int, yy: int| self.inb(xx, yy) implies match #[trigger] self.cell(
                xx,
                yy,
            ) {
                PieceKind::Group(gg) => gg < self.groups,
                _ => true,
            } by {
                assert(fin.inb(xx, yy));
                assert(self.cell(xx, yy) == fin.cell(xx, yy));
            }
        }
    }

    /// For every group, record which of the four sheet edges it touches.
    #[verifier::loop_isolation(false)]
    #[verifier::rlimit(100)]
    pub fn analysis(&self) -> (r: Vec<GroupEdges>)
        requires
            self.wf(),
            self.w >= 1,
            self.h >= 1,
            self.groups_below(self.groups),
        ensures
            r@.len() == self.groups as int,
            forall|g: int|
                0 <= g < self.groups as int ==> {
                    &&& (#[trigger] r@[g]).top == exists|xx: int|
                        0 <= xx < self.w as int && #[trigger] self.cell(xx, 0) == PieceKind::Group(
                            g as u16,
                        )
                    &&& r@[g].bottom == exists|xx: int|
                        0 <= xx < self.w as int && #[trigger] self.cell(
                            xx,
                            self.h as int - 1,
                        ) == PieceKind::Group(g as u16)
                    &&& r@[g].left == exists|yy: int|
                        0 <= yy < self.h as int && #[trigger] self.cell(0, yy) == PieceKind::Group(
                            g as u16,
                        )
                    &&& r@[g].right == exists|yy: int|
                        0 <= yy < self.h as int && #[trigger] self.cell(
                            self.w as int - 1,
                            yy,
                        ) == PieceKind::Group(g as u16)
                },
    {
        let mut edg: Vec<GroupEdges> = Vec::new();
        let n = self.groups;
        while edg.len() < n as usize
            invariant
                edg@.len() <= n as int,
                forall|g: int|
                    0 <= g < edg@.len() ==> #[trigger] edg@[g] == (GroupEdges {
                        top: false,
                        bottom: false,
                        left: false,
                        right: false,
                    }),
            decreases n as int - edg@.len(),
        {
            edg.push(GroupEdges { top: false, bottom: false, left: false, right: false });
        }
        let mut x: usize = 0;
        while x < self.w
            invariant
                0 <= x <= self.w,
                edg@.len() == n as int,
                forall|g: int|
                    0 <= g < n as int ==> {
                        &&& (#[trigger] edg@[g]).top == exists|xx: int|
                            0 <= xx < x as int && #[trigger] self.cell(xx, 0) == PieceKind::Group(
                                g as u16,
                            )
                        &&& edg@[g].bottom == exists|xx: int|
                            0 <= xx < x as int && #[trigger] self.cell(
                                xx,
                                self.h as int - 1,
                            ) == PieceKind::Group(g as u16)
                        &&& edg@[g].left == false
                        &&& edg@[g].right == false
                    },
            decreases self.w - x,
        {
            match self.pieces[0][x] {
                PieceKind::Group(g) => {
                    proof {
                        assert(self.cell(x as int, 0) == PieceKind::Group(g));
                        assert((g as int) < self.groups as int);
                    }
                    let e = &mut edg[g as usize];
                    e.top = true;
                },
                _ => {},
            }
            match self.pieces[self.h - 1][x] {
                PieceKind::Group(g) => {
                    proof {
                        assert(self.cell(x as int, self.h as int - 1) == PieceKind::Group(g));
                        assert((g as int) < self.groups as int);
                    }
                    let e = &mut edg[g as usize];
                    e.bottom = true;
                },
                _ => {},
            }
            x += 1;
        }
        let mut y: usize = 0;
        while y < self.h
            invariant
                0 <= y <= self.h,
                edg@.len() == n as int,
                forall|g: int|
                    0 <= g < n as int ==> {
                        &&& (#[trigger] edg@[g]).top == exists|xx: int|
                            0 <= xx < self.w as int && #[trigger] self.cell(
                                xx,
                                0,
                            ) == PieceKind::Group(g as u16)
                        &&& edg@[g].bottom == exists|xx: int|
                            0 <= xx < self.w as int && #[trigger] self.cell(
                                xx,
                                self.h as int - 1,
                            ) == PieceKind::Group(g as u16)
                        &&& edg@[g].left == exists|yy: int|
                            0 <= yy < y as int && #[trigger] self.cell(0, yy) == PieceKind::Group(
                                g as u16,
                            )
                        &&& edg@[g].right == exists|yy: int|
                            0 <= yy < y as int && #[trigger] self.cell(
                                self.w as int - 1,
                                yy,
                            ) == PieceKind::Group(g as u16)
                    },
            decreases self.h - y,
        {
            match self.pieces[y][0] {
                PieceKind::Group(g) => {
                    proof {
                        assert(self.cell(0, y as int) == PieceKind::Group(g));
                        assert((g as int) < self.groups as int);
                    }
                    let e = &mut edg[g as usize];
                    e.left = true;
                },
                _ => {},
            }
            match self.pieces[y][self.w - 1] {
                PieceKind::Group(g) => {
                    proof {
                        assert(self.cell(self.w as int - 1, y as int) == PieceKind::Group(g));
                        assert((g as int) < self.groups as int);
                    }
                    let e = &mut edg[g as usize];
                    e.right = true;
                },
                _ => {},
            }
            y += 1;
        }
        edg
    }
}


/// Two to the power `k`.
pub open spec fn pow2(k: nat) -> int
    decreases k,
{
    if k == 0 {
        1
    } else {
        2 * pow2((k - 1) as nat)
    }
}

/// Powers of two grow with the exponent.
pub proof fn lemma_pow2_mono(j: nat, k: nat)
    requires
        j <= k,
    ensures
        1 <= pow2(j) <= pow2(k),
    decreases k,
{
    if k > 0 {
        if j < k {
            lemma_pow2_mono(j, (k - 1) as nat);
        } else {
            lemma_pow2_mono((j - 1) as nat, (k - 1) as nat);
        }
    }
}

/// The largest power of two used here fits in 32 bits.
pub proof fn lemma_pow2_31()
    ensures
        pow2(31) == 0x80000000,
{
    reveal_with_fuel(pow2, 33);
}

/// The per-direction factor after `n` unfoldings, selected by whether the
/// group touches the low and the high edge of that direction.
pub open spec fn fold_factor(lo: bool, hi: bool, n: nat) -> int {
    if lo && hi {
        1
    } else if lo && !hi {
        u_val(n)
    } else if !lo && !hi {
        v_val(n)
    } else {
        w_val(n)
    }
}

pub open spec fn u_val(n: nat) -> int {
    if n == 0 {
        1
    } else {
        pow2((n - 1) as nat)
    }
}

pub open spec fn v_val(n: nat) -> int {
    pow2(n)
}

pub open spec fn w_val(n: nat) -> int {
    if n == 0 {
        1
    } else {
        pow2((n - 1) as nat) + 1
    }
}

/// The total number of pieces after `n` unfoldings: the product of the
/// two direction factors, summed over the groups.
pub open spec fn answer_spec(edges: Seq<GroupEdges>, n: nat) -> int
    decreases edges.len(),
{
    if edges.len() == 0 {
        0
    } else {
        answer_spec(edges.drop_last(), n) + fold_factor(edges.last().left, edges.last().right, n)
            * fold_factor(edges.last().top, edges.last().bottom, n)
    }
}

/// Each group contributes at least one piece.
pub proof fn lemma_fold_factor_pos(lo: bool, hi: bool, n: nat)
    ensures
        1 <= fold_factor(lo, hi, n),
{
    if n > 0 {
        lemma_pow2_mono(0, (n - 1) as nat);
        lemma_pow2_mono(0, n);
    }
}

/// Every sum of per-group counts is non-negative.
pub proof fn lemma_answer_nonneg(edges: Seq<GroupEdges>, n: nat)
    ensures
        0 <= answer_spec(edges, n),
    decreases edges.len(),
{
    if edges.len() > 0 {
        lemma_answer_nonneg(edges.drop_last(), n);
        lemma_fold_factor_pos(edges.last().left, edges.last().right, n);
        lemma_fold_factor_pos(edges.last().top, edges.last().bottom, n);
        assert(fold_factor(edges.last().left, edges.last().right, n) * fold_factor(
            edges.last().top,
            edges.last().bottom,
            n,
        ) >= 1) by (nonlinear_arith)
            requires
                fold_factor(edges.last().left, edges.last().right, n) >= 1,
                fold_factor(edges.last().top, edges.last().bottom, n) >= 1,
        ;
    }
}

/// Prefix sums never exceed the whole sum.
pub proof fn lemma_answer_prefix(edges: Seq<GroupEdges>, n: nat, i: int)
    requires
        0 <= i <= edges.len(),
    ensures
        0 <= answer_spec(edges.take(i), n) <= answer_spec(edges, n),
    decreases edges.len() - i,
{
    lemma_answer_nonneg(edges.take(i), n);
    if i < edges.len() {
        lemma_answer_prefix(edges, n, i + 1);
        let t = edges.take(i + 1);
        assert(t.drop_last() =~= edges.take(i));
        assert(t.last() == edges[i]);
        lemma_fold_factor_pos(edges[i].left, edges[i].right, n);
        lemma_fold_factor_pos(edges[i].top, edges[i].bottom, n);
        assert(fold_factor(edges[i].left, edges[i].right, n) * fold_factor(
            edges[i].top,
            edges[i].bottom,
            n,
        ) >= 1) by (nonlinear_arith)
            requires
                fold_factor(edges[i].left, edges[i].right, n) >= 1,
                fold_factor(edges[i].top, edges[i].bottom, n) >= 1,
        ;
    } else {
        assert(edges.take(i) =~= edges);
    }
}

/// Two to the power `k`, executably.
#[verifier::loop_isolation(false)]
pub fn pow2_exec(k: u32) -> (r: u32)
    requires
        k <= 31,
    ensures
        r as int == pow2(k as nat),
{
    let mut r: u32 = 1;
    let mut i: u32 = 0;
    proof {
        lemma_pow2_31();
    }
    while i < k
        invariant
            0 <= i <= k,
            r as int == pow2(i as nat),
        decreases k - i,
    {
        proof {
            lemma_pow2_mono((i + 1) as nat, 31);
        }
        r = r * 2;
        i += 1;
    }
    r
}

/// The horizontal or vertical factor for a group anchored on the low edge
/// only.
#[allow(non_snake_case)]
pub fn U(n: u32) -> (r: u32)
    requires
        n <= 32,
    ensures
        r as int == u_val(n as nat),
{
    if n == 0 {
        1
    } else {
        pow2_exec(n - 1)
    }
}

/// The factor for a group anchored on neither edge.
#[allow(non_snake_case)]
pub fn V(n: u32) -> (r: u32)
    requires
        n <= 31,
    ensures
        r as int == v_val(n as nat),
{
    pow2_exec(n)
}

/// The factor for a group anchored on the high edge only.
#[allow(non_snake_case)]
pub fn W(n: u32) -> (r: u32)
    requires
        n <= 32,
    ensures
        r as int == w_val(n as nat),
{
    if n == 0 {
        1
    } else {
        proof {
            lemma_pow2_mono((n - 1) as nat, 31);
            lemma_pow2_31();
        }
        pow2_exec(n - 1) + 1
    }
}

/// Sum the per-group piece counts after `n` unfoldings.
#[verifier::loop_isolation(false)]
#[verifier::rlimit(100)]
pub fn answer(edg_vec: Vec<GroupEdges>, n: u32) -> (r: u32)
    requires
        n <= 31,
        answer_spec(edg_vec@, n as nat) <= u32::MAX as int,
    ensures
        r as int == answer_spec(edg_vec@, n as nat),
{
    let mut sum: u32 = 0;
    let mut i: usize = 0;
    proof {
        assert(edg_vec@.take(0) =~= Seq::<GroupEdges>::empty());
    }
    while i < edg_vec.len()
        invariant
            0 <= i <= edg_vec@.len(),
            sum as int == answer_spec(edg_vec@.take(i as int), n as nat),
        decreases edg_vec@.len() - i,
    {
        let e = edg_vec[i];
        let h_factor = if e.left && e.right {
            1
        } else if e.left {
            U(n)
        } else if e.right {
            W(n)
        } else {
            V(n)
        };
        let v_factor = if e.top && e.bottom {
            1
        } else if e.top {
            U(n)
        } else if e.bottom {
            W(n)
        } else {
            V(n)
        };
        proof {
            let t = edg_vec@.take(i as int + 1);
            assert(t.drop_last() =~= edg_vec@.take(i as int));
            assert(t.last() == edg_vec@[i as int]);
            assert(h_factor as int == fold_factor(e.left, e.right, n as nat));
            assert(v_factor as int == fold_factor(e.top, e.bottom, n as nat));
            lemma_answer_prefix(edg_vec@, n as nat, i as int + 1);
            lemma_answer_prefix(edg_vec@, n as nat, i as int);
            lemma_fold_factor_pos(e.left, e.right, n as nat);
            lemma_fold_factor_pos(e.top, e.bottom, n as nat);
            assert(h_factor as int * v_factor as int >= 1) by (nonlinear_arith)
                requires
                    h_factor as int >= 1,
                    v_factor as int >= 1,
            ;
        }
        sum = sum + h_factor * v_factor;
        i += 1;
    }
    proof {
        assert(edg_vec@.take(edg_vec@.len() as int) =~= edg_vec@);
    }
    sum
}

} // verus!
