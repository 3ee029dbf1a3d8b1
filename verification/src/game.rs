//! The game controller: turn order, move validation, the move pipeline
//! (liberty initialization, union on connect, opponent liberty removal,
//! capture resolution), and the session state machine.

use vstd::prelude::*;
use crate::board::Board;
use crate::error::GoError;
use crate::game_move::GameMove;
use crate::stone::Stone;
use crate::ui::{UserAction, UserInterface};
use crate::union_find::UnionFind;

verus! {

pub struct Game<UI> {
    pub board: Board,
    pub stone_groups: UnionFind,
    pub turn: bool,
    pub move_number: usize,
    pub game_over: bool,
    pub ui: UI,
}

impl<UI> Game<UI> {
    /// The shared key space of board and tracker: one node per cell.
    pub open spec fn n(self) -> int {
        self.board.n()
    }

    /// Whose stone the next valid move places: Black when `turn` is set.
    pub open spec fn mover(self) -> Stone {
        if self.turn {
            Stone::Black
        } else {
            Stone::White
        }
    }

    /// Chains are monochrome: two distinct connected cells hold equal,
    /// non-empty stones.
    pub open spec fn groups_monochrome(self) -> bool {
        forall|i: int, j: int|
            0 <= i < self.n() && 0 <= j < self.n() && i != j && #[trigger] self.stone_groups.same(
                i,
                j,
            ) ==> self.board.cell_at(i) != Stone::Empty && self.board.cell_at(i)
                == self.board.cell_at(j)
    }

    /// An empty cell's node carries no liberties (it is isolated too, by
    /// monochromaticity).
    pub open spec fn empties_bare(self) -> bool {
        forall|i: int|
            0 <= i < self.n() && self.board.cell_at(i) == Stone::Empty
                ==> (#[trigger] self.stone_groups.libs(i)) == Set::<usize>::empty()
    }

    /// Every recorded liberty is an in-range, currently empty cell. In
    /// particular no chain counts a stone of its own as a liberty.
    pub open spec fn libs_are_empty_cells(self) -> bool {
        forall|i: int, q: usize|
            0 <= i < self.n() && #[trigger] self.stone_groups.libs(i).contains(q) ==> q < self.n()
                && self.board.cell_at(q as int) == Stone::Empty
    }

    /// Every recorded liberty is orthogonally adjacent to some member of
    /// the chain that records it.
    pub open spec fn libs_touch_their_group(self) -> bool {
        forall|i: int, q: usize|
            0 <= i < self.n() && #[trigger] self.stone_groups.libs(i).contains(q) ==> exists|j: int|
                0 <= j < self.n() && (#[trigger] self.stone_groups.same(i, j))
                    && self.board.adj_flat(j, q as int)
    }

    /// The whole-game invariant: a well-formed board, a well-formed
    /// tracker over the same key space, and liberty bookkeeping that
    /// matches the board.
    pub open spec fn wf(self) -> bool {
        &&& self.board.wf()
        &&& self.stone_groups.valid()
        &&& self.stone_groups.count() == self.n()
        &&& self.groups_monochrome()
        &&& self.empties_bare()
        &&& self.libs_are_empty_cells()
        &&& self.libs_touch_their_group()
    }

    /// `q` holds a stone of color `c` next to cell `p`.
    pub open spec fn ally_nbr(self, p: int, c: Stone, q: usize) -> bool {
        q < self.n() && self.board.adj_flat(p, q as int) && self.board.cell_at(q as int) == c
    }

    /// `q` holds a stone of the opposing color next to cell `p`.
    pub open spec fn foe_nbr(self, p: int, c: Stone, q: usize) -> bool {
        q < self.n() && self.board.adj_flat(p, q as int) && self.board.cell_at(q as int) != c
            && self.board.cell_at(q as int) != Stone::Empty
    }

    /// `q` is an empty cell next to cell `p`.
    pub open spec fn empty_nbr(self, p: int, q: usize) -> bool {
        q < self.n() && self.board.adj_flat(p, q as int) && self.board.cell_at(q as int)
            == Stone::Empty
    }

    /// The liberties a lone stone placed on `p` starts with.
    pub open spec fn empty_nbrs(self, p: int) -> Set<usize> {
        Set::new(|q: usize| self.empty_nbr(p, q))
    }

    /// An opposing neighbor whose chain loses its last liberty to the
    /// stone placed on `p`.
    pub open spec fn captured_nbr(self, p: int, c: Stone, q: usize) -> bool {
        self.foe_nbr(p, c, q) && self.stone_groups.libs(q as int).remove(p as usize).is_empty()
    }

    /// Cell `j` belongs to a chain that the move on `p` captures.
    pub open spec fn captured_cell(self, p: int, c: Stone, j: int) -> bool {
        exists|q: usize| #[trigger] self.captured_nbr(p, c, q) && self.stone_groups.same(j, q as int)
    }

    /// Cell `j` belongs to the chain formed by the stone placed on `p`
    /// merging with its same-colored neighbors.
    pub open spec fn joins_new_group(self, p: int, c: Stone, j: int) -> bool {
        j == p || exists|q: usize| #[trigger] self.ally_nbr(p, c, q) && self.stone_groups.same(
            j,
            q as int,
        )
    }

    /// Cell `j` belongs to a chain adjacent to `p` of the opposing color.
    pub open spec fn foe_hit(self, p: int, c: Stone, j: int) -> bool {
        exists|q: usize| #[trigger] self.foe_nbr(p, c, q) && self.stone_groups.same(j, q as int)
    }

    /// The liberty set of the merged chain right after the move on `p`:
    /// the union of the placed stone's empty neighbors with the liberties
    /// of every same-colored neighboring chain, minus the newly occupied
    /// position itself.
    pub open spec fn new_stone_libs(self, p: int, c: Stone) -> Set<usize> {
        Set::new(
            |x: usize|
                (self.empty_nbr(p, x) || exists|q: usize|
                    #[trigger] self.ally_nbr(p, c, q) && self.stone_groups.libs(q as int).contains(
                        x,
                    )) && x != p,
        )
    }

    /// How the move on `p` reshapes connectivity: captured chains fall
    /// apart, the placed stone and its same-colored neighbors fuse into
    /// one chain, and everything else keeps its old relations.
    pub open spec fn same_after_move(self, p: int, c: Stone, i: int, j: int) -> bool {
        i == j || (!self.captured_cell(p, c, i) && !self.captured_cell(p, c, j) && (
        self.stone_groups.same(i, j) || (self.joins_new_group(p, c, i) && self.joins_new_group(
            p,
            c,
            j,
        ))))
    }

    /// A game on a fresh width x height board: every cell empty, every
    /// tracker node isolated, Black to move, no moves made, not over.
    pub fn new_game(width: usize, height: usize, ui: UI) -> (g: Game<UI>)
        requires
            width * height <= usize::MAX,
        ensures
            g.wf(),
            g.board.width == width,
            g.board.height == height,
            g.turn == true,
            g.move_number == 0,
            g.game_over == false,
            forall|j: int| 0 <= j < g.n() ==> #[trigger] g.board.cell_at(j) == Stone::Empty,
            forall|i: int, j: int|
                0 <= i < g.n() && 0 <= j < g.n() ==> (#[trigger] g.stone_groups.same(i, j) <==> i
                    == j),
            forall|i: int|
                0 <= i < g.n() ==> #[trigger] g.stone_groups.libs(i) == Set::<usize>::empty(),
    {
        let board = Board::new(width, height);
        proof {
            assert(width * height == board.n()) by (nonlinear_arith)
                requires
                    board.width == width,
                    board.height == height,
            ;
        }
        let stone_groups = UnionFind::new(width * height);
        let g = Game { board, stone_groups, turn: true, move_number: 0, game_over: false, ui };
        proof {
            assert forall|j: int| 0 <= j < g.n() implies #[trigger] g.board.cell_at(j)
                == Stone::Empty by {
                g.board.lemma_unflat(j);
            }
        }
        g
    }

    /// Initialize the tracker entry for a stone about to be placed on
    /// `pos`: its liberty set starts as exactly the empty in-bounds
    /// orthogonal neighbors of `pos`. Everything else is untouched.
    fn create_libs(&mut self, pos: (usize, usize))
        requires
            old(self).wf(),
            old(self).board.in_bounds_spec(pos.0 as int, pos.1 as int),
            old(self).board.cell(pos.0 as int, pos.1 as int) == Stone::Empty,
        ensures
            final(self).board == old(self).board,
            final(self).turn == old(self).turn,
            final(self).move_number == old(self).move_number,
            final(self).game_over == old(self).game_over,
            final(self).ui == old(self).ui,
            final(self).stone_groups.valid(),
            final(self).stone_groups.count() == old(self).n(),
            forall|i: int|
                0 <= i < old(self).n() ==> #[trigger] final(self).stone_groups.rep(i) == old(
                    self,
                ).stone_groups.rep(i),
            forall|i: int|
                0 <= i < old(self).n() ==> #[trigger] final(self).stone_groups.libs(i) == (if i
                    == old(self).board.fidx(pos.0 as int, pos.1 as int) {
                    old(self).empty_nbrs(old(self).board.fidx(pos.0 as int, pos.1 as int))
                } else {
                    old(self).stone_groups.libs(i)
                }),
    {
        let row = pos.0;
        let col = pos.1;
        proof {
            old(self).board.lemma_flat(row as int, col as int);
        }
        let p = self.board.index_of_pos(pos);
        let ghost pi = p as int;
        let mut libs: Vec<usize> = Vec::new();
        let has_u = row > 0 && self.board.stone_at(row - 1, col) == Stone::Empty;
        let has_d = row + 1 < self.board.height && self.board.stone_at(row + 1, col)
            == Stone::Empty;
        let has_l = col > 0 && self.board.stone_at(row, col - 1) == Stone::Empty;
        let has_r = col + 1 < self.board.width && self.board.stone_at(row, col + 1)
            == Stone::Empty;
        proof {
            if has_u {
                old(self).board.lemma_flat(row as int - 1, col as int);
            }
            if has_d {
                old(self).board.lemma_flat(row as int + 1, col as int);
            }
            if has_l {
                old(self).board.lemma_flat(row as int, col as int - 1);
            }
            if has_r {
                old(self).board.lemma_flat(row as int, col as int + 1);
            }
        }
        if has_u {
            libs.push(self.board.index_of_pos((row - 1, col)));
        }
        if has_d {
            libs.push(self.board.index_of_pos((row + 1, col)));
        }
        if has_l {
            libs.push(self.board.index_of_pos((row, col - 1)));
        }
        if has_r {
            libs.push(self.board.index_of_pos((row, col + 1)));
        }
        proof {
            assert(libs@.to_set() =~= old(self).empty_nbrs(pi)) by {
                assert forall|x: usize| libs@.to_set().contains(x) implies old(self).empty_nbrs(
                    pi,
                ).contains(x) by {
                    let k = choose|k: int| 0 <= k < libs@.len() && libs@[k] == x;
                    assert(old(self).empty_nbr(pi, x));
                }
                assert forall|x: usize| old(self).empty_nbrs(pi).contains(x) implies libs@.to_set().contains(
                    x,
                ) by {
                    assert(old(self).empty_nbr(pi, x));
                    old(self).board.lemma_unflat(x as int);
                    let r2 = old(self).board.row_of(x as int);
                    let c2 = old(self).board.col_of(x as int);
                    if r2 + 1 == row as int {
                        assert(libs@[0] == x);
                    } else if r2 == row as int + 1 {
                        assert(libs@[if has_u {
                            1int
                        } else {
                            0int
                        }] == x);
                    } else if c2 + 1 == col as int {
                        assert(libs@[(if has_u {
                            1int
                        } else {
                            0int
                        }) + (if has_d {
                            1int
                        } else {
                            0int
                        })] == x);
                    } else {
                        assert(c2 == col as int + 1);
                        assert(libs@[(if has_u {
                            1int
                        } else {
                            0int
                        }) + (if has_d {
                            1int
                        } else {
                            0int
                        }) + (if has_l {
                            1int
                        } else {
                            0int
                        })] == x);
                    }
                }
            }
            // the target node is isolated: an empty cell shares its chain
            // with nobody else
            assert forall|j: int|
                0 <= j < old(self).n() && #[trigger] old(self).stone_groups.same(
                    pi,
                    j,
                ) implies j == pi by {
                if j != pi {
                    assert(old(self).board.cell_at(pi) != Stone::Empty);
                }
            }
            assert(old(self).stone_groups.rep(pi) == pi) by {
                old(self).stone_groups.lemma_rep_props(pi);
                let r = old(self).stone_groups.rep(pi);
                assert(old(self).stone_groups.same(pi, r));
            }
            assert(old(self).stone_groups.libs(pi).is_empty());
        }
        let res = self.stone_groups.initialize_liberties_of_pos(p, libs);
        proof {
            assert(res is Ok);
            assert forall|i: int|
                0 <= i < old(self).n() implies #[trigger] self.stone_groups.libs(i) == (if i == pi {
                old(self).empty_nbrs(pi)
            } else {
                old(self).stone_groups.libs(i)
            }) by {
                if old(self).stone_groups.same(i, pi) {
                    assert(i == pi);
                }
            }
        }
    }

    /// An opposing stone has been (or is being) placed on `p`, adjacent to
    /// the chain containing `victim`: remove `p` from that chain's
    /// liberties; if none remain, the chain is captured, every one of its
    /// stones is cleared from the board, and its bookkeeping is reset.
    fn strike_enemy(&mut self, victim: usize, p: usize)
        requires
            old(self).board.wf(),
            old(self).stone_groups.valid(),
            old(self).stone_groups.count() == old(self).n(),
            victim < old(self).n(),
        ensures
            final(self).board.wf(),
            final(self).board.width == old(self).board.width,
            final(self).board.height == old(self).board.height,
            final(self).stone_groups.valid(),
            final(self).stone_groups.count() == old(self).n(),
            final(self).turn == old(self).turn,
            final(self).move_number == old(self).move_number,
            final(self).game_over == old(self).game_over,
            final(self).ui == old(self).ui,
            forall|j: int|
                0 <= j < old(self).n() ==> #[trigger] final(self).board.cell_at(j) == (if old(
                    self,
                ).stone_groups.libs(victim as int).remove(p).is_empty() && old(
                    self,
                ).stone_groups.same(j, victim as int) {
                    Stone::Empty
                } else {
                    old(self).board.cell_at(j)
                }),
            forall|i: int|
                0 <= i < old(self).n() ==> #[trigger] final(self).stone_groups.rep(i) == (if old(
                    self,
                ).stone_groups.libs(victim as int).remove(p).is_empty() && old(
                    self,
                ).stone_groups.same(i, victim as int) {
                    i
                } else {
                    old(self).stone_groups.rep(i)
                }),
            forall|i: int|
                0 <= i < old(self).n() ==> #[trigger] final(self).stone_groups.libs(i) == (if old(
                    self,
                ).stone_groups.same(i, victim as int) {
                    if old(self).stone_groups.libs(victim as int).remove(p).is_empty() {
                        Set::<usize>::empty()
                    } else {
                        old(self).stone_groups.libs(victim as int).remove(p)
                    }
                } else {
                    old(self).stone_groups.libs(i)
                }),
    {
        let ghost n = old(self).n();
        self.stone_groups.remove_liberty_from_chain(victim, p);
        let ghost mid = *self;
        if self.stone_groups.no_liberties(victim) {
            proof {
                assert(mid.stone_groups.libs(victim as int) == old(
                    self,
                ).stone_groups.libs(victim as int).remove(p));
            }
            let members = self.stone_groups.dissolve_group(victim);
            let ghost mid2 = *self;
            proof {
                assert(members@.to_set() == mid.stone_groups.group(victim as int));
                assert forall|j: int|
                    0 <= j < n implies (#[trigger] mid.stone_groups.same(j, victim as int)
                    <==> old(self).stone_groups.same(j, victim as int)) by {
                    assert(mid.stone_groups.rep(j) == old(self).stone_groups.rep(j));
                    assert(mid.stone_groups.rep(victim as int) == old(self).stone_groups.rep(
                        victim as int,
                    ));
                }
            }
            let mut k: usize = 0;
            while k < members.len()
                invariant
                    self.board.wf(),
                    self.board.width == old(self).board.width,
                    self.board.height == old(self).board.height,
                    n == old(self).n(),
                    self.stone_groups == mid2.stone_groups,
                    self.turn == old(self).turn,
                    self.move_number == old(self).move_number,
                    self.game_over == old(self).game_over,
                    self.ui == old(self).ui,
                    k <= members@.len(),
                    members@.no_duplicates(),
                    forall|x: int| 0 <= x < members@.len() ==> (#[trigger] members@[x]) < n,
                    forall|j: int|
                        0 <= j < n ==> #[trigger] self.board.cell_at(j) == (if members@.take(
                            k as int,
                        ).to_set().contains(j as usize) {
                            Stone::Empty
                        } else {
                            old(self).board.cell_at(j)
                        }),
                decreases members@.len() - k,
            {
                let ghost bpre = self.board;
                let m = members[k];
                self.board.set_cell_by_index(m, Stone::Empty);
                proof {
                    assert(members@.take(k as int + 1) =~= members@.take(k as int).push(m));
                    crate::liberties::lemma_to_set_push(members@.take(k as int), m);
                    assert forall|j: int|
                        0 <= j < n implies #[trigger] self.board.cell_at(j) == (if members@.take(
                        k as int + 1,
                    ).to_set().contains(j as usize) {
                        Stone::Empty
                    } else {
                        old(self).board.cell_at(j)
                    }) by {
                        if j != m as int {
                            assert(self.board.cell_at(j) == bpre.cell_at(j));
                        }
                    }
                }
                k += 1;
            }
            proof {
                assert(members@.take(members@.len() as int) =~= members@);
                assert forall|j: int|
                    0 <= j < n implies #[trigger] self.board.cell_at(j) == (if old(
                    self,
                ).stone_groups.libs(victim as int).remove(p).is_empty() && old(
                    self,
                ).stone_groups.same(j, victim as int) {
                    Stone::Empty
                } else {
                    old(self).board.cell_at(j)
                }) by {
                    if old(self).stone_groups.same(j, victim as int) {
                        assert(members@.to_set().contains(j as usize));
                    } else {
                        assert(!members@.to_set().contains(j as usize));
                    }
                }
                assert forall|i: int|
                    0 <= i < n implies #[trigger] self.stone_groups.rep(i) == (if old(
                    self,
                ).stone_groups.libs(victim as int).remove(p).is_empty() && old(
                    self,
                ).stone_groups.same(i, victim as int) {
                    i
                } else {
                    old(self).stone_groups.rep(i)
                }) by {
                    assert(mid2.stone_groups.rep(i) == (if mid.stone_groups.same(i, victim as int) {
                        i
                    } else {
                        mid.stone_groups.rep(i)
                    }));
                    assert(mid.stone_groups.rep(i) == old(self).stone_groups.rep(i));
                }
                assert forall|i: int|
                    0 <= i < n implies #[trigger] self.stone_groups.libs(i) == (if old(
                    self,
                ).stone_groups.same(i, victim as int) {
                    if old(self).stone_groups.libs(victim as int).remove(p).is_empty() {
                        Set::<usize>::empty()
                    } else {
                        old(self).stone_groups.libs(victim as int).remove(p)
                    }
                } else {
                    old(self).stone_groups.libs(i)
                }) by {
                    assert(mid2.stone_groups.libs(i) == (if mid.stone_groups.same(i, victim as int) {
                        Set::<usize>::empty()
                    } else {
                        mid.stone_groups.libs(i)
                    }));
                    assert(mid.stone_groups.libs(i) == (if old(self).stone_groups.same(
                        i,
                        victim as int,
                    ) {
                        old(self).stone_groups.libs(victim as int).remove(p)
                    } else {
                        old(self).stone_groups.libs(i)
                    }));
                }
            }
        } else {
            proof {
                assert(!old(self).stone_groups.libs(victim as int).remove(p).is_empty());
                assert forall|i: int|
                    0 <= i < n implies #[trigger] self.stone_groups.rep(i) == old(
                    self,
                ).stone_groups.rep(i) by {}
            }
        }
    }

    /// The chain the placed stone has merged with after the first `k`
    /// same-colored neighbors have been unioned in.
    spec fn touch_prefix(self, p: int, allies: Seq<usize>, k: int, i: int) -> bool {
        i == p || exists|x: int|
            0 <= x < k && self.stone_groups.same(i, (#[trigger] allies[x]) as int)
    }

    /// The pooled liberty set after the first `k` same-colored neighbors
    /// have been unioned in.
    spec fn merged_prefix(self, p: usize, allies: Seq<usize>, k: int) -> Set<usize> {
        Set::new(
            |z: usize|
                (self.stone_groups.libs(p as int).contains(z) || exists|x: int|
                    0 <= x < k && self.stone_groups.libs((#[trigger] allies[x]) as int).contains(z))
                    && z != p,
        )
    }

    /// The move on `p` takes the last liberty of the chain containing `q`.
    spec fn cap0(self, p: usize, q: usize) -> bool {
        self.stone_groups.libs(q as int).remove(p).is_empty()
    }

    /// Cell `j` lies in a chain captured by one of the first `k` processed
    /// opposing neighbors.
    spec fn captured_pref(self, p: usize, foes: Seq<usize>, k: int, j: int) -> bool {
        exists|x: int|
            0 <= x < k && self.cap0(p, (#[trigger] foes[x])) && self.stone_groups.same(
                j,
                foes[x] as int,
            )
    }

    /// Cell `j` lies in a surviving chain that one of the first `k`
    /// processed opposing neighbors belongs to.
    spec fn hit_pref(self, p: usize, foes: Seq<usize>, k: int, j: int) -> bool {
        exists|x: int|
            0 <= x < k && !self.cap0(p, (#[trigger] foes[x])) && self.stone_groups.same(
                j,
                foes[x] as int,
            )
    }

    /// After the merge phase, the prefix formulas coincide with the
    /// published chain and liberty descriptions, and opposing chains are
    /// untouched.
    #[verifier::spinoff_prover]
    proof fn lemma_after_merge(
        self,
        stone: Stone,
        pi: int,
        p: usize,
        allseq: Seq<usize>,
        foeseq: Seq<usize>,
        h: Game<UI>,
    )
        requires
            self.board.wf(),
            self.stone_groups.valid(),
            self.stone_groups.count() == self.n(),
            stone != Stone::Empty,
            0 <= pi < self.n(),
            p as int == pi,
            self.board.cell_at(pi) == Stone::Empty,
            self.groups_monochrome(),
            self.stone_groups.libs(pi) == self.empty_nbrs(pi),
            forall|j: int|
                0 <= j < self.n() && #[trigger] self.stone_groups.same(pi, j) ==> j == pi,
            forall|x: int|
                0 <= x < allseq.len() ==> self.ally_nbr(pi, stone, (#[trigger] allseq[x])),
            forall|q: usize| self.ally_nbr(pi, stone, q) ==> allseq.contains(q),
            forall|x: int|
                0 <= x < foeseq.len() ==> self.foe_nbr(pi, stone, (#[trigger] foeseq[x])),
            h.stone_groups.valid(),
            h.stone_groups.count() == self.n(),
            forall|i: int, j: int|
                #![trigger h.stone_groups.same(i, j)]
                0 <= i < self.n() && 0 <= j < self.n() ==> (h.stone_groups.same(i, j) <==> (
                self.stone_groups.same(i, j) || (self.touch_prefix(pi, allseq, allseq.len() as int, i)
                    && self.touch_prefix(pi, allseq, allseq.len() as int, j)))),
            forall|i: int|
                0 <= i < self.n() ==> #[trigger] h.stone_groups.libs(i) == (if self.touch_prefix(
                    pi,
                    allseq,
                    allseq.len() as int,
                    i,
                ) {
                    self.merged_prefix(p, allseq, allseq.len() as int)
                } else {
                    self.stone_groups.libs(i)
                }),
        ensures
            forall|i: int, j: int|
                #![trigger h.stone_groups.same(i, j)]
                0 <= i < self.n() && 0 <= j < self.n() ==> (h.stone_groups.same(i, j) <==> (
                self.stone_groups.same(i, j) || (self.joins_new_group(pi, stone, i)
                    && self.joins_new_group(pi, stone, j)))),
            forall|i: int|
                0 <= i < self.n() ==> #[trigger] h.stone_groups.libs(i) == (if self.joins_new_group(
                    pi,
                    stone,
                    i,
                ) {
                    self.new_stone_libs(pi, stone)
                } else {
                    self.stone_groups.libs(i)
                }),
            forall|i: int, f: usize|
                0 <= i < self.n() && foeseq.contains(f) ==> (#[trigger] h.stone_groups.same(
                    i,
                    f as int,
                ) <==> self.stone_groups.same(i, f as int)),
    {
            let g0 = self;
            let kl = allseq.len() as int;
            assert forall|i: int|
                0 <= i < self.n() implies (g0.touch_prefix(pi, allseq, kl, i) <==> g0.joins_new_group(
                pi,
                stone,
                i,
            )) by {
                if g0.touch_prefix(pi, allseq, kl, i) && i != pi {
                    let x = choose|x: int|
                        0 <= x < kl && g0.stone_groups.same(i, (#[trigger] allseq[x]) as int);
                    assert(g0.ally_nbr(pi, stone, allseq[x]) && g0.stone_groups.same(
                        i,
                        allseq[x] as int,
                    ));
                }
                if g0.joins_new_group(pi, stone, i) && i != pi {
                    let q = choose|q: usize|
                        #[trigger] g0.ally_nbr(pi, stone, q) && g0.stone_groups.same(i, q as int);
                    assert(allseq.contains(q));
                    let x = choose|x: int| 0 <= x < allseq.len() && allseq[x] == q;
                    assert(g0.stone_groups.same(i, (allseq[x]) as int));
                }
            }
            assert(g0.merged_prefix(p, allseq, kl) =~= g0.new_stone_libs(pi, stone)) by {
                assert forall|z: usize|
                    g0.merged_prefix(p, allseq, kl).contains(z) implies g0.new_stone_libs(
                    pi,
                    stone,
                ).contains(z) by {
                    if g0.stone_groups.libs(p as int).contains(z) {
                        assert(g0.empty_nbrs(pi).contains(z));
                        assert(g0.empty_nbr(pi, z));
                    } else {
                        let x = choose|x: int|
                            0 <= x < kl && g0.stone_groups.libs(
                                (#[trigger] allseq[x]) as int,
                            ).contains(z);
                        assert(g0.ally_nbr(pi, stone, allseq[x]) && g0.stone_groups.libs(
                            allseq[x] as int,
                        ).contains(z));
                    }
                }
                assert forall|z: usize|
                    g0.new_stone_libs(pi, stone).contains(z) implies g0.merged_prefix(
                    p,
                    allseq,
                    kl,
                ).contains(z) by {
                    if g0.empty_nbr(pi, z) {
                        assert(g0.empty_nbrs(pi).contains(z));
                        assert(g0.stone_groups.libs(p as int).contains(z));
                    } else {
                        let q = choose|q: usize|
                            #[trigger] g0.ally_nbr(pi, stone, q) && g0.stone_groups.libs(
                                q as int,
                            ).contains(z);
                        assert(allseq.contains(q));
                        let x = choose|x: int| 0 <= x < allseq.len() && allseq[x] == q;
                        assert(g0.stone_groups.libs((allseq[x]) as int).contains(z));
                    }
                }
            }
            // opposing chains are untouched by the merge phase
            assert forall|i: int, f: usize|
                0 <= i < self.n() && foeseq.contains(f) implies (#[trigger] h.stone_groups.same(
                i,
                f as int,
            ) <==> g0.stone_groups.same(i, f as int)) by {
                let x = choose|x: int| 0 <= x < foeseq.len() && foeseq[x] == f;
                assert(g0.foe_nbr(pi, stone, f));
                assert(!g0.touch_prefix(pi, allseq, allseq.len() as int, f as int)) by {
                    if g0.touch_prefix(pi, allseq, allseq.len() as int, f as int) {
                        assert(g0.joins_new_group(pi, stone, f as int));
                        if f as int != pi {
                            let q = choose|q: usize|
                                #[trigger] g0.ally_nbr(pi, stone, q) && g0.stone_groups.same(
                                    f as int,
                                    q as int,
                                );
                            if f == q {
                            } else {
                                assert(g0.board.cell_at(f as int) == g0.board.cell_at(q as int));
                            }
                        }
                    }
                }
            }
    }

    /// After the strike phase, the prefix formulas coincide with the
    /// published capture, chain and liberty descriptions of the move.
    #[verifier::spinoff_prover]
    proof fn lemma_finish_update(
        self,
        stone: Stone,
        pi: int,
        p: usize,
        foeseq: Seq<usize>,
        h: Game<UI>,
        b: Game<UI>,
    )
        requires
            self.board.wf(),
            self.stone_groups.valid(),
            self.stone_groups.count() == self.n(),
            stone != Stone::Empty,
            0 <= pi < self.n(),
            p as int == pi,
            self.board.cell_at(pi) == Stone::Empty,
            self.groups_monochrome(),
            forall|j: int|
                0 <= j < self.n() && #[trigger] self.stone_groups.same(pi, j) ==> j == pi,
            forall|x: int|
                0 <= x < foeseq.len() ==> self.foe_nbr(pi, stone, (#[trigger] foeseq[x])),
            forall|q: usize| self.foe_nbr(pi, stone, q) ==> foeseq.contains(q),
            h.stone_groups.valid(),
            h.stone_groups.count() == self.n(),
            forall|i: int, j: int|
                #![trigger h.stone_groups.same(i, j)]
                0 <= i < self.n() && 0 <= j < self.n() ==> (h.stone_groups.same(i, j) <==> (
                self.stone_groups.same(i, j) || (self.joins_new_group(pi, stone, i)
                    && self.joins_new_group(pi, stone, j)))),
            b.stone_groups.valid(),
            b.stone_groups.count() == self.n(),
            forall|j: int|
                0 <= j < self.n() ==> #[trigger] b.board.cell_at(j) == (if self.captured_pref(
                    p,
                    foeseq,
                    foeseq.len() as int,
                    j,
                ) {
                    Stone::Empty
                } else {
                    self.board.cell_at(j)
                }),
            forall|i: int|
                0 <= i < self.n() ==> #[trigger] b.stone_groups.rep(i) == (if self.captured_pref(
                    p,
                    foeseq,
                    foeseq.len() as int,
                    i,
                ) {
                    i
                } else {
                    h.stone_groups.rep(i)
                }),
            forall|i: int|
                0 <= i < self.n() ==> #[trigger] b.stone_groups.libs(i) == (if self.captured_pref(
                    p,
                    foeseq,
                    foeseq.len() as int,
                    i,
                ) {
                    Set::<usize>::empty()
                } else if self.joins_new_group(pi, stone, i) {
                    self.new_stone_libs(pi, stone)
                } else if self.hit_pref(p, foeseq, foeseq.len() as int, i) {
                    self.stone_groups.libs(i).remove(p)
                } else {
                    self.stone_groups.libs(i)
                }),
        ensures
            forall|j: int|
                0 <= j < self.n() ==> #[trigger] b.board.cell_at(j) == (if self.captured_cell(
                    pi,
                    stone,
                    j,
                ) {
                    Stone::Empty
                } else {
                    self.board.cell_at(j)
                }),
            forall|i: int, j: int|
                #![trigger b.stone_groups.same(i, j)]
                0 <= i < self.n() && 0 <= j < self.n() ==> (b.stone_groups.same(i, j)
                    <==> self.same_after_move(pi, stone, i, j)),
            forall|i: int|
                0 <= i < self.n() ==> #[trigger] b.stone_groups.libs(i) == (if self.captured_cell(
                    pi,
                    stone,
                    i,
                ) {
                    Set::<usize>::empty()
                } else if self.joins_new_group(pi, stone, i) {
                    self.new_stone_libs(pi, stone)
                } else if self.foe_hit(pi, stone, i) {
                    self.stone_groups.libs(i).remove(p)
                } else {
                    self.stone_groups.libs(i)
                }),
    {
            let g0 = self;
            let kl = foeseq.len() as int;
            assert forall|j: int|
                0 <= j < self.n() implies (g0.captured_pref(p, foeseq, kl, j) <==> g0.captured_cell(
                pi,
                stone,
                j,
            )) by {
                if g0.captured_pref(p, foeseq, kl, j) {
                    let x = choose|x: int|
                        0 <= x < kl && g0.cap0(p, (#[trigger] foeseq[x])) && g0.stone_groups.same(
                            j,
                            foeseq[x] as int,
                        );
                    assert(g0.captured_nbr(pi, stone, foeseq[x]) && g0.stone_groups.same(
                        j,
                        foeseq[x] as int,
                    ));
                }
                if g0.captured_cell(pi, stone, j) {
                    let q = choose|q: usize|
                        #[trigger] g0.captured_nbr(pi, stone, q) && g0.stone_groups.same(
                            j,
                            q as int,
                        );
                    assert(foeseq.contains(q));
                    let x = choose|x: int| 0 <= x < foeseq.len() && foeseq[x] == q;
                    assert(g0.cap0(p, foeseq[x]) && g0.stone_groups.same(j, (foeseq[x]) as int));
                }
            }
            assert forall|i: int|
                0 <= i < self.n() && !g0.captured_cell(pi, stone, i) && !g0.joins_new_group(
                    pi,
                    stone,
                    i,
                ) implies (g0.hit_pref(p, foeseq, kl, i) <==> g0.foe_hit(pi, stone, i)) by {
                if g0.hit_pref(p, foeseq, kl, i) {
                    let x = choose|x: int|
                        0 <= x < kl && !g0.cap0(p, (#[trigger] foeseq[x])) && g0.stone_groups.same(
                            i,
                            foeseq[x] as int,
                        );
                    assert(g0.foe_nbr(pi, stone, foeseq[x]) && g0.stone_groups.same(
                        i,
                        (foeseq[x]) as int,
                    ));
                }
                if g0.foe_hit(pi, stone, i) {
                    let q = choose|q: usize|
                        #[trigger] g0.foe_nbr(pi, stone, q) && g0.stone_groups.same(i, q as int);
                    assert(foeseq.contains(q));
                    let x = choose|x: int| 0 <= x < foeseq.len() && foeseq[x] == q;
                    assert(!g0.cap0(p, q)) by {
                        if g0.cap0(p, q) {
                            assert(g0.captured_nbr(pi, stone, q));
                            assert(g0.captured_cell(pi, stone, i));
                        }
                    }
                    assert(!g0.cap0(p, foeseq[x]) && g0.stone_groups.same(i, (foeseq[x]) as int));
                }
            }
            // partition: relate representatives to the published relation
            assert forall|i: int, j: int|
                #![trigger b.stone_groups.same(i, j)]
                0 <= i < self.n() && 0 <= j < self.n() implies (b.stone_groups.same(i, j)
                <==> g0.same_after_move(pi, stone, i, j)) by {
                assert(b.stone_groups.rep(i) == (if g0.captured_pref(p, foeseq, kl, i) {
                    i
                } else {
                    h.stone_groups.rep(i)
                }));
                assert(b.stone_groups.rep(j) == (if g0.captured_pref(p, foeseq, kl, j) {
                    j
                } else {
                    h.stone_groups.rep(j)
                }));
                h.stone_groups.lemma_rep_props(i);
                h.stone_groups.lemma_rep_props(j);
                if !g0.captured_pref(p, foeseq, kl, i) && !g0.captured_pref(p, foeseq, kl, j) {
                    assert(b.stone_groups.same(i, j) <==> h.stone_groups.same(i, j));
                } else if g0.captured_pref(p, foeseq, kl, i) && !g0.captured_pref(
                    p,
                    foeseq,
                    kl,
                    j,
                ) {
                    if b.stone_groups.same(i, j) {
                        assert(h.stone_groups.rep(j) == i);
                        assert(h.stone_groups.same(j, i));
                        assert(g0.stone_groups.same(j, i) || (g0.joins_new_group(pi, stone, j)
                            && g0.joins_new_group(pi, stone, i)));
                        if g0.stone_groups.same(j, i) {
                            assert(g0.captured_pref(p, foeseq, kl, j));
                        } else {
                            assert(g0.joins_new_group(pi, stone, i));
                            assert(g0.captured_cell(pi, stone, i));
                            let q = choose|q: usize|
                                #[trigger] g0.captured_nbr(pi, stone, q) && g0.stone_groups.same(
                                    i,
                                    q as int,
                                );
                            assert(!g0.joins_new_group(pi, stone, q as int)) by {
                                if g0.joins_new_group(pi, stone, q as int) {
                                    if q as int == pi {
                                    } else {
                                        let q2 = choose|q2: usize|
                                            #[trigger] g0.ally_nbr(pi, stone, q2)
                                                && g0.stone_groups.same(q as int, q2 as int);
                                        if q == q2 {
                                        } else {
                                            assert(g0.board.cell_at(q as int) == g0.board.cell_at(
                                                q2 as int,
                                            ));
                                        }
                                    }
                                }
                            }
                            assert(g0.joins_new_group(pi, stone, q as int)) by {
                                if i == pi {
                                    assert(g0.stone_groups.same(pi, q as int));
                                    assert(q as int == pi);
                                } else {
                                    let a2 = choose|a2: usize|
                                        #[trigger] g0.ally_nbr(pi, stone, a2)
                                            && g0.stone_groups.same(i, a2 as int);
                                    assert(g0.stone_groups.same(q as int, a2 as int));
                                }
                            }
                            assert(false);
                        }
                        assert(false);
                    }
                    assert(!g0.same_after_move(pi, stone, i, j)) by {
                        assert(i != j);
                        assert(g0.captured_cell(pi, stone, i));
                    }
                } else if !g0.captured_pref(p, foeseq, kl, i) && g0.captured_pref(
                    p,
                    foeseq,
                    kl,
                    j,
                ) {
                    if b.stone_groups.same(i, j) {
                        assert(h.stone_groups.rep(i) == j);
                        assert(h.stone_groups.same(i, j));
                        assert(g0.stone_groups.same(i, j) || (g0.joins_new_group(pi, stone, i)
                            && g0.joins_new_group(pi, stone, j)));
                        if g0.stone_groups.same(i, j) {
                            assert(g0.captured_pref(p, foeseq, kl, i));
                        } else {
                            assert(g0.joins_new_group(pi, stone, j));
                            assert(g0.captured_cell(pi, stone, j));
                            let q = choose|q: usize|
                                #[trigger] g0.captured_nbr(pi, stone, q) && g0.stone_groups.same(
                                    j,
                                    q as int,
                                );
                            assert(g0.joins_new_group(pi, stone, q as int)) by {
                                if j == pi {
                                    assert(q as int == pi);
                                } else {
                                    let a2 = choose|a2: usize|
                                        #[trigger] g0.ally_nbr(pi, stone, a2)
                                            && g0.stone_groups.same(j, a2 as int);
                                    assert(g0.stone_groups.same(q as int, a2 as int));
                                }
                            }
                            assert(!g0.joins_new_group(pi, stone, q as int)) by {
                                if g0.joins_new_group(pi, stone, q as int) {
                                    if q as int == pi {
                                    } else {
                                        let q2 = choose|q2: usize|
                                            #[trigger] g0.ally_nbr(pi, stone, q2)
                                                && g0.stone_groups.same(q as int, q2 as int);
                                        if q == q2 {
                                        } else {
                                            assert(g0.board.cell_at(q as int) == g0.board.cell_at(
                                                q2 as int,
                                            ));
                                        }
                                    }
                                }
                            }
                            assert(false);
                        }
                        assert(false);
                    }
                    assert(!g0.same_after_move(pi, stone, i, j)) by {
                        assert(i != j);
                        assert(g0.captured_cell(pi, stone, j));
                    }
                } else {
                    // both captured: connected only to themselves now
                    if i == j {
                    } else {
                        assert(b.stone_groups.rep(i) == i);
                        assert(b.stone_groups.rep(j) == j);
                        assert(!b.stone_groups.same(i, j));
                        assert(!g0.same_after_move(pi, stone, i, j));
                    }
                }
            }
        assert forall|j: int|
            0 <= j < self.n() implies #[trigger] b.board.cell_at(j) == (if self.captured_cell(
            pi,
            stone,
            j,
        ) {
            Stone::Empty
        } else {
            self.board.cell_at(j)
        }) by {}
        assert forall|i: int|
            0 <= i < self.n() implies #[trigger] b.stone_groups.libs(i) == (if self.captured_cell(
            pi,
            stone,
            i,
        ) {
            Set::<usize>::empty()
        } else if self.joins_new_group(pi, stone, i) {
            self.new_stone_libs(pi, stone)
        } else if self.foe_hit(pi, stone, i) {
            self.stone_groups.libs(i).remove(p)
        } else {
            self.stone_groups.libs(i)
        }) by {}
    }

    /// Process the (up to four) orthogonal neighbors of the move at `mv`:
    /// union with same-colored chains, take the move's position out of
    /// opposing chains' liberties, and capture those left without any.
    /// The cell itself is written by the caller afterwards.
    #[verifier::rlimit(100)]
    #[verifier::spinoff_prover]
    fn update_board(&mut self, mv: (usize, usize), stone: Stone)
        requires
            old(self).board.wf(),
            old(self).stone_groups.valid(),
            old(self).stone_groups.count() == old(self).n(),
            stone != Stone::Empty,
            old(self).board.in_bounds_spec(mv.0 as int, mv.1 as int),
            old(self).board.cell(mv.0 as int, mv.1 as int) == Stone::Empty,
            old(self).groups_monochrome(),
            forall|i: int|
                0 <= i < old(self).n() && i != old(self).board.fidx(mv.0 as int, mv.1 as int)
                    && old(self).board.cell_at(i) == Stone::Empty ==> (#[trigger] old(
                    self,
                ).stone_groups.libs(i)) == Set::<usize>::empty(),
            old(self).libs_are_empty_cells(),
            old(self).libs_touch_their_group(),
            old(self).stone_groups.libs(old(self).board.fidx(mv.0 as int, mv.1 as int)) == old(
                self,
            ).empty_nbrs(old(self).board.fidx(mv.0 as int, mv.1 as int)),
        ensures
            final(self).board.wf(),
            final(self).board.width == old(self).board.width,
            final(self).board.height == old(self).board.height,
            final(self).stone_groups.valid(),
            final(self).stone_groups.count() == old(self).n(),
            final(self).turn == old(self).turn,
            final(self).move_number == old(self).move_number,
            final(self).game_over == old(self).game_over,
            final(self).ui == old(self).ui,
            forall|j: int|
                0 <= j < old(self).n() ==> #[trigger] final(self).board.cell_at(j) == (if old(
                    self,
                ).captured_cell(old(self).board.fidx(mv.0 as int, mv.1 as int), stone, j) {
                    Stone::Empty
                } else {
                    old(self).board.cell_at(j)
                }),
            forall|i: int, j: int|
                #![trigger final(self).stone_groups.same(i, j)]
                0 <= i < old(self).n() && 0 <= j < old(self).n() ==> (final(self).stone_groups.same(i, j) <==> old(self).same_after_move(
                    old(self).board.fidx(mv.0 as int, mv.1 as int),
                    stone,
                    i,
                    j,
                )),
            forall|i: int|
                0 <= i < old(self).n() ==> #[trigger] final(self).stone_groups.libs(i) == (if old(
                    self,
                ).captured_cell(old(self).board.fidx(mv.0 as int, mv.1 as int), stone, i) {
                    Set::<usize>::empty()
                } else if old(self).joins_new_group(
                    old(self).board.fidx(mv.0 as int, mv.1 as int),
                    stone,
                    i,
                ) {
                    old(self).new_stone_libs(old(self).board.fidx(mv.0 as int, mv.1 as int), stone)
                } else if old(self).foe_hit(
                    old(self).board.fidx(mv.0 as int, mv.1 as int),
                    stone,
                    i,
                ) {
                    old(self).stone_groups.libs(i).remove(
                        (old(self).board.fidx(mv.0 as int, mv.1 as int)) as usize,
                    )
                } else {
                    old(self).stone_groups.libs(i)
                }),
    {
        let row = mv.0;
        let col = mv.1;
        proof {
            old(self).board.lemma_flat(row as int, col as int);
        }
        let p = self.board.index_of_pos(mv);
        let ghost pi = p as int;
        let ghost n = old(self).n();
        // classify the four orthogonal neighbors against the mover's color
        let in_u = row > 0;
        let in_d = row + 1 < self.board.height;
        let in_l = col > 0;
        let in_r = col + 1 < self.board.width;
        let s_u = if in_u {
            self.board.stone_at(row - 1, col)
        } else {
            Stone::Empty
        };
        let s_d = if in_d {
            self.board.stone_at(row + 1, col)
        } else {
            Stone::Empty
        };
        let s_l = if in_l {
            self.board.stone_at(row, col - 1)
        } else {
            Stone::Empty
        };
        let s_r = if in_r {
            self.board.stone_at(row, col + 1)
        } else {
            Stone::Empty
        };
        let au = in_u && s_u == stone;
        let ad = in_d && s_d == stone;
        let al = in_l && s_l == stone;
        let ar = in_r && s_r == stone;
        let fu = in_u && s_u != stone && s_u != Stone::Empty;
        let fd = in_d && s_d != stone && s_d != Stone::Empty;
        let fl = in_l && s_l != stone && s_l != Stone::Empty;
        let fr = in_r && s_r != stone && s_r != Stone::Empty;
        proof {
            if in_u {
                old(self).board.lemma_flat(row as int - 1, col as int);
            }
            if in_d {
                old(self).board.lemma_flat(row as int + 1, col as int);
            }
            if in_l {
                old(self).board.lemma_flat(row as int, col as int - 1);
            }
            if in_r {
                old(self).board.lemma_flat(row as int, col as int + 1);
            }
        }
        let mut allies: Vec<usize> = Vec::new();
        let mut foes: Vec<usize> = Vec::new();
        if au {
            allies.push(self.board.index_of_pos((row - 1, col)));
        }
        if ad {
            allies.push(self.board.index_of_pos((row + 1, col)));
        }
        if al {
            allies.push(self.board.index_of_pos((row, col - 1)));
        }
        if ar {
            allies.push(self.board.index_of_pos((row, col + 1)));
        }
        if fu {
            foes.push(self.board.index_of_pos((row - 1, col)));
        }
        if fd {
            foes.push(self.board.index_of_pos((row + 1, col)));
        }
        if fl {
            foes.push(self.board.index_of_pos((row, col - 1)));
        }
        if fr {
            foes.push(self.board.index_of_pos((row, col + 1)));
        }
        proof {
            assert forall|x: int|
                0 <= x < allies@.len() implies old(self).ally_nbr(
                pi,
                stone,
                (#[trigger] allies@[x]),
            ) by {}
            assert forall|x: int|
                0 <= x < foes@.len() implies old(self).foe_nbr(
                pi,
                stone,
                (#[trigger] foes@[x]),
            ) by {}
            assert forall|q: usize|
                old(self).ally_nbr(pi, stone, q) implies allies@.contains(q) by {
                old(self).board.lemma_unflat(q as int);
                let r2 = old(self).board.row_of(q as int);
                let c2 = old(self).board.col_of(q as int);
                if r2 + 1 == row as int {
                    assert(allies@[0] == q);
                } else if r2 == row as int + 1 {
                    assert(allies@[if au {
                        1int
                    } else {
                        0int
                    }] == q);
                } else if c2 + 1 == col as int {
                    assert(allies@[(if au {
                        1int
                    } else {
                        0int
                    }) + (if ad {
                        1int
                    } else {
                        0int
                    })] == q);
                } else {
                    assert(c2 == col as int + 1);
                    assert(allies@[(if au {
                        1int
                    } else {
                        0int
                    }) + (if ad {
                        1int
                    } else {
                        0int
                    }) + (if al {
                        1int
                    } else {
                        0int
                    })] == q);
                }
            }
            assert forall|q: usize| old(self).foe_nbr(pi, stone, q) implies foes@.contains(q) by {
                old(self).board.lemma_unflat(q as int);
                let r2 = old(self).board.row_of(q as int);
                let c2 = old(self).board.col_of(q as int);
                if r2 + 1 == row as int {
                    assert(foes@[0] == q);
                } else if r2 == row as int + 1 {
                    assert(foes@[if fu {
                        1int
                    } else {
                        0int
                    }] == q);
                } else if c2 + 1 == col as int {
                    assert(foes@[(if fu {
                        1int
                    } else {
                        0int
                    }) + (if fd {
                        1int
                    } else {
                        0int
                    })] == q);
                } else {
                    assert(c2 == col as int + 1);
                    assert(foes@[(if fu {
                        1int
                    } else {
                        0int
                    }) + (if fd {
                        1int
                    } else {
                        0int
                    }) + (if fl {
                        1int
                    } else {
                        0int
                    })] == q);
                }
            }
            // the target node is isolated
            assert forall|j: int|
                0 <= j < n && #[trigger] old(self).stone_groups.same(pi, j) implies j == pi by {
                if j != pi {
                    assert(old(self).board.cell_at(pi) != Stone::Empty);
                }
            }
        }
        let ghost allseq = allies@;
        let ghost foeseq = foes@;
        // phase one: union with every same-colored neighbor
        let mut k: usize = 0;
        while k < allies.len()
            invariant
                old(self).board.wf(),
                old(self).stone_groups.valid(),
                old(self).stone_groups.count() == n,
                n == old(self).n(),
                old(self).groups_monochrome(),
                old(self).libs_are_empty_cells(),
                stone != Stone::Empty,
                pi == old(self).board.fidx(row as int, col as int),
                0 <= pi < n,
                p as int == pi,
                old(self).board.cell_at(pi) == Stone::Empty,
                allies@ == allseq,
                forall|x: int|
                    0 <= x < allseq.len() ==> old(self).ally_nbr(pi, stone, (#[trigger] allseq[x])),
                forall|j: int|
                    0 <= j < n && #[trigger] old(self).stone_groups.same(pi, j) ==> j == pi,
                self.board == old(self).board,
                self.turn == old(self).turn,
                self.move_number == old(self).move_number,
                self.game_over == old(self).game_over,
                self.ui == old(self).ui,
                self.stone_groups.valid(),
                self.stone_groups.count() == n,
                k <= allseq.len(),
                forall|i: int, j: int|
                    #![trigger self.stone_groups.same(i, j)]
                    0 <= i < n && 0 <= j < n ==> (self.stone_groups.same(i, j) <==> (old(
                        self,
                    ).stone_groups.same(i, j) || (old(self).touch_prefix(pi, allseq, k as int, i)
                        && old(self).touch_prefix(pi, allseq, k as int, j)))),
                forall|i: int|
                    0 <= i < n ==> #[trigger] self.stone_groups.libs(i) == (if old(
                        self,
                    ).touch_prefix(pi, allseq, k as int, i) {
                        old(self).merged_prefix(p, allseq, k as int)
                    } else {
                        old(self).stone_groups.libs(i)
                    }),
            decreases allseq.len() - k,
        {
            let a = allies[k];
            let ghost ck = *self;
            proof {
                assert(old(self).ally_nbr(pi, stone, a));
                assert(old(self).touch_prefix(pi, allseq, k as int, pi));
            }
            self.stone_groups.union(p, a);
            proof {
                let g0 = *old(self);
                let kk = k as int;
                // the just-processed ally, seen from the pre-union state
                assert forall|i: int|
                    0 <= i < n implies (ck.stone_groups.same(i, pi) <==> g0.touch_prefix(
                    pi,
                    allseq,
                    kk,
                    i,
                )) by {
                    assert(ck.stone_groups.same(i, pi) <==> (g0.stone_groups.same(i, pi)
                        || (g0.touch_prefix(pi, allseq, kk, i) && g0.touch_prefix(
                        pi,
                        allseq,
                        kk,
                        pi,
                    ))));
                }
                assert forall|i: int|
                    0 <= i < n implies (g0.touch_prefix(pi, allseq, kk + 1, i) <==> (
                g0.touch_prefix(pi, allseq, kk, i) || g0.stone_groups.same(i, a as int))) by {
                    if g0.touch_prefix(pi, allseq, kk + 1, i) && !g0.touch_prefix(
                        pi,
                        allseq,
                        kk,
                        i,
                    ) {
                        let x = choose|x: int|
                            0 <= x < kk + 1 && g0.stone_groups.same(i, allseq[x] as int);
                        assert(x == kk);
                    }
                    if g0.stone_groups.same(i, a as int) {
                        assert(allseq[kk] == a);
                    }
                }
                // liberties of the merged chain
                assert forall|i: int|
                    0 <= i < n implies #[trigger] self.stone_groups.libs(i) == (if g0.touch_prefix(
                    pi,
                    allseq,
                    kk + 1,
                    i,
                ) {
                    g0.merged_prefix(p, allseq, kk + 1)
                } else {
                    g0.stone_groups.libs(i)
                }) by {
                    if ck.stone_groups.same(pi, a as int) {
                        // this ally chain was already merged in
                        assert(g0.touch_prefix(pi, allseq, kk, a as int));
                        assert(g0.merged_prefix(p, allseq, kk + 1) =~= g0.merged_prefix(
                            p,
                            allseq,
                            kk,
                        )) by {
                            let x0 = choose|x: int|
                                0 <= x < kk && g0.stone_groups.same(a as int, allseq[x] as int);
                            assert forall|z: usize|
                                g0.merged_prefix(p, allseq, kk + 1).contains(
                                    z,
                                ) implies g0.merged_prefix(p, allseq, kk).contains(z) by {
                                if !(g0.stone_groups.libs(p as int).contains(z) || exists|x: int|
                                    0 <= x < kk && g0.stone_groups.libs(
                                        (#[trigger] allseq[x]) as int,
                                    ).contains(z)) {
                                    assert(g0.stone_groups.libs(a as int).contains(z));
                                    g0.stone_groups.lemma_same_libs(a as int, allseq[x0] as int);
                                }
                            }
                        }
                        assert(self.stone_groups.libs(i) == ck.stone_groups.libs(i));
                        if g0.touch_prefix(pi, allseq, kk + 1, i) && !g0.touch_prefix(
                            pi,
                            allseq,
                            kk,
                            i,
                        ) {
                            assert(g0.stone_groups.same(i, a as int));
                            let x0 = choose|x: int|
                                0 <= x < kk && g0.stone_groups.same(a as int, allseq[x] as int);
                            assert(g0.stone_groups.same(i, allseq[x0] as int));
                            assert(false);
                        }
                    } else {
                        // a genuinely new chain joins
                        assert(self.stone_groups.libs(i) == (if ck.stone_groups.same(i, pi)
                            || ck.stone_groups.same(i, a as int) {
                            ck.stone_groups.libs(pi).union(ck.stone_groups.libs(a as int)).remove(
                                p,
                            ).remove(a)
                        } else {
                            ck.stone_groups.libs(i)
                        }));
                        assert(!g0.touch_prefix(pi, allseq, kk, a as int)) by {
                            if g0.touch_prefix(pi, allseq, kk, a as int) {
                                assert(ck.stone_groups.same(a as int, pi));
                            }
                        }
                        assert(ck.stone_groups.libs(pi) == g0.merged_prefix(p, allseq, kk));
                        assert(ck.stone_groups.libs(a as int) == g0.stone_groups.libs(a as int));
                        assert(ck.stone_groups.libs(pi).union(
                            ck.stone_groups.libs(a as int),
                        ).remove(p).remove(a) =~= g0.merged_prefix(p, allseq, kk + 1)) by {
                            assert(!g0.stone_groups.libs(pi).contains(a));
                            assert forall|z: usize|
                                g0.merged_prefix(p, allseq, kk).contains(z) implies z != a by {
                                if g0.stone_groups.libs(p as int).contains(z) {
                                    assert(g0.board.cell_at(z as int) == Stone::Empty);
                                } else {
                                    let x = choose|x: int|
                                        0 <= x < kk && g0.stone_groups.libs(
                                            (#[trigger] allseq[x]) as int,
                                        ).contains(z);
                                    assert(g0.board.cell_at(z as int) == Stone::Empty);
                                }
                                assert(g0.board.cell_at(a as int) == stone);
                            }
                            assert forall|z: usize|
                                g0.stone_groups.libs(a as int).contains(z) implies z != a by {
                                assert(g0.board.cell_at(z as int) == Stone::Empty);
                                assert(g0.board.cell_at(a as int) == stone);
                            }
                            assert forall|z: usize|
                                g0.merged_prefix(p, allseq, kk + 1).contains(z) implies (
                            g0.merged_prefix(p, allseq, kk).contains(z)
                                || g0.stone_groups.libs(a as int).contains(z)) by {
                                if !(g0.stone_groups.libs(p as int).contains(z) || exists|x: int|
                                    0 <= x < kk && g0.stone_groups.libs(
                                        (#[trigger] allseq[x]) as int,
                                    ).contains(z)) {
                                    let x = choose|x: int|
                                        0 <= x < kk + 1 && g0.stone_groups.libs(
                                            (#[trigger] allseq[x]) as int,
                                        ).contains(z);
                                    assert(x == kk);
                                }
                            }
                            assert forall|z: usize|
                                g0.merged_prefix(p, allseq, kk).contains(
                                    z,
                                ) implies g0.merged_prefix(p, allseq, kk + 1).contains(z) by {}
                            assert forall|z: usize|
                                g0.stone_groups.libs(a as int).contains(z) && z
                                    != p implies g0.merged_prefix(p, allseq, kk + 1).contains(
                                z,
                            ) by {
                                assert(allseq[kk] == a);
                            }
                        }
                        if g0.touch_prefix(pi, allseq, kk + 1, i) {
                            assert(ck.stone_groups.same(i, pi) || ck.stone_groups.same(
                                i,
                                a as int,
                            )) by {
                                if g0.touch_prefix(pi, allseq, kk, i) {
                                    assert(ck.stone_groups.same(i, pi));
                                } else {
                                    assert(g0.stone_groups.same(i, a as int));
                                    assert(ck.stone_groups.same(i, a as int));
                                }
                            }
                        } else {
                            assert(!(ck.stone_groups.same(i, pi) || ck.stone_groups.same(
                                i,
                                a as int,
                            ))) by {
                                if ck.stone_groups.same(i, pi) {
                                    assert(g0.touch_prefix(pi, allseq, kk, i));
                                }
                                if ck.stone_groups.same(i, a as int) {
                                    assert(ck.stone_groups.same(i, pi) <==> (g0.stone_groups.same(
                                        i,
                                        pi,
                                    ) || (g0.touch_prefix(pi, allseq, kk, i) && g0.touch_prefix(
                                        pi,
                                        allseq,
                                        kk,
                                        pi,
                                    ))));
                                    assert(g0.stone_groups.same(i, a as int) || (g0.touch_prefix(
                                        pi,
                                        allseq,
                                        kk,
                                        i,
                                    ) && g0.touch_prefix(pi, allseq, kk, a as int)));
                                }
                            }
                            assert(self.stone_groups.libs(i) == ck.stone_groups.libs(i));
                            assert(!g0.touch_prefix(pi, allseq, kk, i));
                        }
                    }
                }
                // partition after one more union
                assert forall|i: int, j: int|
                    #![trigger self.stone_groups.same(i, j)]
                    0 <= i < n && 0 <= j < n implies (self.stone_groups.same(i, j) <==> (
                g0.stone_groups.same(i, j) || (g0.touch_prefix(pi, allseq, kk + 1, i)
                    && g0.touch_prefix(pi, allseq, kk + 1, j)))) by {
                    assert(self.stone_groups.same(i, j) <==> (ck.stone_groups.same(i, j) || (
                    ck.stone_groups.same(i, pi) && ck.stone_groups.same(j, a as int)) || (
                    ck.stone_groups.same(i, a as int) && ck.stone_groups.same(j, pi))));
                    assert(ck.stone_groups.same(i, j) <==> (g0.stone_groups.same(i, j) || (
                    g0.touch_prefix(pi, allseq, kk, i) && g0.touch_prefix(pi, allseq, kk, j))));
                    assert(ck.stone_groups.same(i, pi) <==> g0.touch_prefix(pi, allseq, kk, i));
                    assert(ck.stone_groups.same(j, pi) <==> g0.touch_prefix(pi, allseq, kk, j));
                    assert(ck.stone_groups.same(i, a as int) <==> (g0.stone_groups.same(i, a as int)
                        || (g0.touch_prefix(pi, allseq, kk, i) && g0.touch_prefix(
                        pi,
                        allseq,
                        kk,
                        a as int,
                    ))));
                    assert(ck.stone_groups.same(j, a as int) <==> (g0.stone_groups.same(j, a as int)
                        || (g0.touch_prefix(pi, allseq, kk, j) && g0.touch_prefix(
                        pi,
                        allseq,
                        kk,
                        a as int,
                    ))));
                }
            }
            k += 1;
        }
        proof {
            assert(allseq.len() <= 4);
        }
        let ghost h = *self;
        proof {
            old(self).lemma_after_merge(stone, pi, p, allseq, foeseq, h);
        }
        // phase two: opposing neighbors lose this liberty; capture the dead
        let mut k2: usize = 0;
        while k2 < foes.len()
            invariant
                old(self).board.wf(),
                old(self).stone_groups.valid(),
                old(self).stone_groups.count() == n,
                n == old(self).n(),
                old(self).groups_monochrome(),
                old(self).libs_are_empty_cells(),
                stone != Stone::Empty,
                pi == old(self).board.fidx(row as int, col as int),
                0 <= pi < n,
                p as int == pi,
                old(self).board.cell_at(pi) == Stone::Empty,
                foes@ == foeseq,
                forall|x: int|
                    0 <= x < foeseq.len() ==> old(self).foe_nbr(pi, stone, (#[trigger] foeseq[x])),
                forall|j: int|
                    0 <= j < n && #[trigger] old(self).stone_groups.same(pi, j) ==> j == pi,
                forall|i: int, f: usize|
                    0 <= i < n && foeseq.contains(f) ==> (#[trigger] h.stone_groups.same(
                        i,
                        f as int,
                    ) <==> old(self).stone_groups.same(i, f as int)),
                h.board == old(self).board,
                h.stone_groups.valid(),
                h.stone_groups.count() == n,
                forall|i: int, j: int|
                    #![trigger h.stone_groups.same(i, j)]
                    0 <= i < n && 0 <= j < n ==> (h.stone_groups.same(i, j) <==> (old(
                        self,
                    ).stone_groups.same(i, j) || (old(self).joins_new_group(pi, stone, i) && old(
                        self,
                    ).joins_new_group(pi, stone, j)))),
                forall|i: int|
                    0 <= i < n ==> #[trigger] h.stone_groups.libs(i) == (if old(
                        self,
                    ).joins_new_group(pi, stone, i) {
                        old(self).new_stone_libs(pi, stone)
                    } else {
                        old(self).stone_groups.libs(i)
                    }),
                self.turn == old(self).turn,
                self.move_number == old(self).move_number,
                self.game_over == old(self).game_over,
                self.ui == old(self).ui,
                self.board.wf(),
                self.board.width == old(self).board.width,
                self.board.height == old(self).board.height,
                self.stone_groups.valid(),
                self.stone_groups.count() == n,
                k2 <= foeseq.len(),
                forall|j: int|
                    0 <= j < n ==> #[trigger] self.board.cell_at(j) == (if old(self).captured_pref(
                        p,
                        foeseq,
                        k2 as int,
                        j,
                    ) {
                        Stone::Empty
                    } else {
                        old(self).board.cell_at(j)
                    }),
                forall|i: int|
                    0 <= i < n ==> #[trigger] self.stone_groups.rep(i) == (if old(
                        self,
                    ).captured_pref(p, foeseq, k2 as int, i) {
                        i
                    } else {
                        h.stone_groups.rep(i)
                    }),
                forall|i: int|
                    0 <= i < n ==> #[trigger] self.stone_groups.libs(i) == (if old(
                        self,
                    ).captured_pref(p, foeseq, k2 as int, i) {
                        Set::<usize>::empty()
                    } else if old(self).joins_new_group(pi, stone, i) {
                        old(self).new_stone_libs(pi, stone)
                    } else if old(self).hit_pref(p, foeseq, k2 as int, i) {
                        old(self).stone_groups.libs(i).remove(p)
                    } else {
                        old(self).stone_groups.libs(i)
                    }),
            decreases foeseq.len() - k2,
        {
            let f = foes[k2];
            let ghost ck = *self;
            proof {
                assert(old(self).foe_nbr(pi, stone, f));
            }
            self.strike_enemy(f, p);
            proof {
                let g0 = *old(self);
                let kk = k2 as int;
                let fi = f as int;
                assert(foeseq[kk] == f);
                assert(foeseq.contains(f));
                // a chain adjacent as foe never joins the new chain
                assert(!g0.joins_new_group(pi, stone, fi)) by {
                    if g0.joins_new_group(pi, stone, fi) {
                        if fi != pi {
                            let q = choose|q: usize|
                                #[trigger] g0.ally_nbr(pi, stone, q) && g0.stone_groups.same(
                                    fi,
                                    q as int,
                                );
                            if f == q {
                            } else {
                                assert(g0.board.cell_at(fi) == g0.board.cell_at(q as int));
                            }
                        }
                    }
                }
                // growing the prefix by one foe
                assert forall|j: int|
                    0 <= j < n implies (g0.captured_pref(p, foeseq, kk + 1, j) <==> (
                g0.captured_pref(p, foeseq, kk, j) || (g0.cap0(p, f) && g0.stone_groups.same(
                    j,
                    fi,
                )))) by {
                    if g0.captured_pref(p, foeseq, kk + 1, j) && !g0.captured_pref(
                        p,
                        foeseq,
                        kk,
                        j,
                    ) {
                        let x = choose|x: int|
                            0 <= x < kk + 1 && g0.cap0(p, (#[trigger] foeseq[x]))
                                && g0.stone_groups.same(j, foeseq[x] as int);
                        assert(x == kk);
                    }
                }
                assert forall|j: int|
                    0 <= j < n implies (g0.hit_pref(p, foeseq, kk + 1, j) <==> (g0.hit_pref(
                    p,
                    foeseq,
                    kk,
                    j,
                ) || (!g0.cap0(p, f) && g0.stone_groups.same(j, fi)))) by {
                    if g0.hit_pref(p, foeseq, kk + 1, j) && !g0.hit_pref(p, foeseq, kk, j) {
                        let x = choose|x: int|
                            0 <= x < kk + 1 && !g0.cap0(p, (#[trigger] foeseq[x]))
                                && g0.stone_groups.same(j, foeseq[x] as int);
                        assert(x == kk);
                    }
                }
                if ck.stone_groups.libs(fi).remove(p).is_empty() {
                    // the strike captured (or re-cleared) this chain
                    if g0.captured_pref(p, foeseq, kk, fi) {
                        // already dissolved earlier: everything is a no-op
                        assert(g0.cap0(p, f)) by {
                            let x = choose|x: int|
                                0 <= x < kk && g0.cap0(p, (#[trigger] foeseq[x]))
                                    && g0.stone_groups.same(fi, foeseq[x] as int);
                            g0.stone_groups.lemma_same_libs(fi, foeseq[x] as int);
                        }
                        assert forall|j: int|
                            0 <= j < n && #[trigger] ck.stone_groups.same(j, fi) implies j
                            == fi by {
                            assert(ck.stone_groups.rep(fi) == fi);
                            if !g0.captured_pref(p, foeseq, kk, j) {
                                assert(ck.stone_groups.rep(j) == h.stone_groups.rep(j));
                                h.stone_groups.lemma_rep_props(j);
                                if h.stone_groups.rep(j) == fi {
                                    assert(h.stone_groups.same(j, fi));
                                    assert(g0.stone_groups.same(j, fi));
                                    assert(g0.captured_pref(p, foeseq, kk, j));
                                }
                                assert(ck.stone_groups.rep(j) != fi || j == fi);
                                if j == fi {
                                } else {
                                    assert(ck.stone_groups.rep(fi) == fi);
                                    assert(!ck.stone_groups.same(j, fi));
                                }
                            } else {
                                assert(ck.stone_groups.rep(j) == j);
                                if j != fi {
                                    assert(!ck.stone_groups.same(j, fi));
                                }
                            }
                        }
                        assert forall|j: int|
                            0 <= j < n implies #[trigger] self.board.cell_at(j) == (if
                        g0.captured_pref(p, foeseq, kk + 1, j) {
                            Stone::Empty
                        } else {
                            g0.board.cell_at(j)
                        }) by {
                            if g0.captured_pref(p, foeseq, kk + 1, j) && !g0.captured_pref(
                                p,
                                foeseq,
                                kk,
                                j,
                            ) {
                                assert(g0.stone_groups.same(j, fi));
                                assert(g0.captured_pref(p, foeseq, kk, j));
                            }
                        }
                        assert forall|i: int|
                            0 <= i < n implies #[trigger] self.stone_groups.rep(i) == (if
                        g0.captured_pref(p, foeseq, kk + 1, i) {
                            i
                        } else {
                            h.stone_groups.rep(i)
                        }) by {
                            if ck.stone_groups.same(i, fi) {
                            } else {
                                assert(self.stone_groups.rep(i) == ck.stone_groups.rep(i));
                            }
                        }
                        assert forall|i: int|
                            0 <= i < n implies #[trigger] self.stone_groups.libs(i) == (if
                        g0.captured_pref(p, foeseq, kk + 1, i) {
                            Set::<usize>::empty()
                        } else if g0.joins_new_group(pi, stone, i) {
                            g0.new_stone_libs(pi, stone)
                        } else if g0.hit_pref(p, foeseq, kk + 1, i) {
                            g0.stone_groups.libs(i).remove(p)
                        } else {
                            g0.stone_groups.libs(i)
                        }) by {
                            if ck.stone_groups.same(i, fi) {
                            } else {
                                assert(self.stone_groups.libs(i) == ck.stone_groups.libs(i));
                                if g0.hit_pref(p, foeseq, kk + 1, i) && !g0.hit_pref(
                                    p,
                                    foeseq,
                                    kk,
                                    i,
                                ) {
                                    assert(!g0.cap0(p, f) && g0.stone_groups.same(i, fi));
                                    assert(false);
                                }
                            }
                        }
                    } else {
                        // a live chain adjacent here: this strike captures it
                        assert(!g0.joins_new_group(pi, stone, fi));
                        assert(ck.stone_groups.libs(fi) == (if g0.hit_pref(p, foeseq, kk, fi) {
                            g0.stone_groups.libs(fi).remove(p)
                        } else {
                            g0.stone_groups.libs(fi)
                        }));
                        assert(g0.cap0(p, f)) by {
                            if g0.hit_pref(p, foeseq, kk, fi) {
                                let x = choose|x: int|
                                    0 <= x < kk && !g0.cap0(p, (#[trigger] foeseq[x]))
                                        && g0.stone_groups.same(fi, foeseq[x] as int);
                                g0.stone_groups.lemma_same_libs(fi, foeseq[x] as int);
                                assert(g0.stone_groups.libs(fi).remove(p).remove(p)
                                    =~= g0.stone_groups.libs(fi).remove(p));
                                assert(false);
                            }
                        }
                        // the struck chain's membership agrees between the
                        // pre-strike state and the original state
                        assert forall|j: int|
                            0 <= j < n implies (#[trigger] ck.stone_groups.same(j, fi)
                            <==> g0.stone_groups.same(j, fi)) by {
                            if g0.captured_pref(p, foeseq, kk, j) {
                                assert(ck.stone_groups.rep(j) == j);
                                if g0.stone_groups.same(j, fi) {
                                    assert(g0.captured_pref(p, foeseq, kk, fi));
                                    assert(false);
                                }
                                if ck.stone_groups.same(j, fi) {
                                    assert(ck.stone_groups.rep(fi) == h.stone_groups.rep(fi));
                                    h.stone_groups.lemma_rep_props(fi);
                                    assert(ck.stone_groups.rep(j) == j);
                                    assert(h.stone_groups.rep(fi) == j);
                                    assert(h.stone_groups.same(fi, j));
                                    assert(g0.stone_groups.same(fi, j));
                                    assert(false);
                                }
                            } else {
                                assert(ck.stone_groups.rep(j) == h.stone_groups.rep(j));
                                assert(ck.stone_groups.rep(fi) == h.stone_groups.rep(fi));
                                assert(ck.stone_groups.same(j, fi) <==> h.stone_groups.same(
                                    j,
                                    fi,
                                ));
                            }
                        }
                        assert forall|j: int|
                            0 <= j < n implies #[trigger] self.board.cell_at(j) == (if
                        g0.captured_pref(p, foeseq, kk + 1, j) {
                            Stone::Empty
                        } else {
                            g0.board.cell_at(j)
                        }) by {}
                        assert forall|i: int|
                            0 <= i < n implies #[trigger] self.stone_groups.rep(i) == (if
                        g0.captured_pref(p, foeseq, kk + 1, i) {
                            i
                        } else {
                            h.stone_groups.rep(i)
                        }) by {}
                        assert forall|i: int|
                            0 <= i < n implies #[trigger] self.stone_groups.libs(i) == (if
                        g0.captured_pref(p, foeseq, kk + 1, i) {
                            Set::<usize>::empty()
                        } else if g0.joins_new_group(pi, stone, i) {
                            g0.new_stone_libs(pi, stone)
                        } else if g0.hit_pref(p, foeseq, kk + 1, i) {
                            g0.stone_groups.libs(i).remove(p)
                        } else {
                            g0.stone_groups.libs(i)
                        }) by {
                            if ck.stone_groups.same(i, fi) {
                            } else {
                                assert(self.stone_groups.libs(i) == ck.stone_groups.libs(i));
                                if g0.hit_pref(p, foeseq, kk + 1, i) && !g0.hit_pref(
                                    p,
                                    foeseq,
                                    kk,
                                    i,
                                ) {
                                    assert(false);
                                }
                            }
                        }
                    }
                } else {
                    // the chain survives: it only loses this liberty
                    assert(!g0.captured_pref(p, foeseq, kk, fi)) by {
                        if g0.captured_pref(p, foeseq, kk, fi) {
                            assert(ck.stone_groups.libs(fi) == Set::<usize>::empty());
                            assert(ck.stone_groups.libs(fi).remove(p) =~= Set::<usize>::empty());
                        }
                    }
                    assert(!g0.joins_new_group(pi, stone, fi));
                    assert(!g0.cap0(p, f)) by {
                        if g0.hit_pref(p, foeseq, kk, fi) {
                            let x = choose|x: int|
                                0 <= x < kk && !g0.cap0(p, (#[trigger] foeseq[x]))
                                    && g0.stone_groups.same(fi, foeseq[x] as int);
                            assert(ck.stone_groups.libs(fi) == g0.stone_groups.libs(fi).remove(p));
                            if g0.cap0(p, f) {
                                assert(g0.stone_groups.libs(fi).remove(p).remove(p)
                                    =~= g0.stone_groups.libs(fi).remove(p));
                                assert(false);
                            }
                        } else {
                            assert(ck.stone_groups.libs(fi) == g0.stone_groups.libs(fi));
                            if g0.cap0(p, f) {
                                assert(ck.stone_groups.libs(fi).remove(p).is_empty());
                                assert(false);
                            }
                        }
                    }
                    assert forall|j: int|
                        0 <= j < n implies (#[trigger] ck.stone_groups.same(j, fi)
                        <==> g0.stone_groups.same(j, fi)) by {
                        if g0.captured_pref(p, foeseq, kk, j) {
                            assert(ck.stone_groups.rep(j) == j);
                            if g0.stone_groups.same(j, fi) {
                                assert(g0.captured_pref(p, foeseq, kk, fi));
                                assert(false);
                            }
                            if ck.stone_groups.same(j, fi) {
                                assert(ck.stone_groups.rep(fi) == h.stone_groups.rep(fi));
                                h.stone_groups.lemma_rep_props(fi);
                                assert(h.stone_groups.same(fi, j));
                                assert(g0.stone_groups.same(fi, j));
                                assert(false);
                            }
                        } else {
                            assert(ck.stone_groups.rep(j) == h.stone_groups.rep(j));
                            assert(ck.stone_groups.rep(fi) == h.stone_groups.rep(fi));
                            assert(ck.stone_groups.same(j, fi) <==> h.stone_groups.same(j, fi));
                        }
                    }
                    assert forall|j: int|
                        0 <= j < n implies #[trigger] self.board.cell_at(j) == (if
                    g0.captured_pref(p, foeseq, kk + 1, j) {
                        Stone::Empty
                    } else {
                        g0.board.cell_at(j)
                    }) by {
                        if g0.captured_pref(p, foeseq, kk + 1, j) && !g0.captured_pref(
                            p,
                            foeseq,
                            kk,
                            j,
                        ) {
                            assert(g0.cap0(p, f));
                            assert(false);
                        }
                    }
                    assert forall|i: int|
                        0 <= i < n implies #[trigger] self.stone_groups.rep(i) == (if
                    g0.captured_pref(p, foeseq, kk + 1, i) {
                        i
                    } else {
                        h.stone_groups.rep(i)
                    }) by {
                        assert(self.stone_groups.rep(i) == ck.stone_groups.rep(i));
                        if g0.captured_pref(p, foeseq, kk + 1, i) && !g0.captured_pref(
                            p,
                            foeseq,
                            kk,
                            i,
                        ) {
                            assert(false);
                        }
                    }
                    assert forall|i: int|
                        0 <= i < n implies #[trigger] self.stone_groups.libs(i) == (if
                    g0.captured_pref(p, foeseq, kk + 1, i) {
                        Set::<usize>::empty()
                    } else if g0.joins_new_group(pi, stone, i) {
                        g0.new_stone_libs(pi, stone)
                    } else if g0.hit_pref(p, foeseq, kk + 1, i) {
                        g0.stone_groups.libs(i).remove(p)
                    } else {
                        g0.stone_groups.libs(i)
                    }) by {
                        if ck.stone_groups.same(i, fi) {
                            ck.stone_groups.lemma_same_libs(i, fi);
                            assert(self.stone_groups.libs(i) == ck.stone_groups.libs(i).remove(p));
                            assert(g0.stone_groups.same(i, fi));
                            g0.stone_groups.lemma_same_libs(i, fi);
                            assert(!g0.captured_pref(p, foeseq, kk + 1, i)) by {
                                if g0.captured_pref(p, foeseq, kk + 1, i) {
                                    if g0.captured_pref(p, foeseq, kk, i) {
                                        assert(g0.captured_pref(p, foeseq, kk, fi));
                                    }
                                    assert(false);
                                }
                            }
                            assert(!g0.joins_new_group(pi, stone, i)) by {
                                if g0.joins_new_group(pi, stone, i) {
                                    assert(g0.joins_new_group(pi, stone, fi)) by {
                                        if i == pi {
                                            assert(g0.stone_groups.same(pi, fi));
                                            assert(fi == pi);
                                        } else {
                                            let q = choose|q: usize|
                                                #[trigger] g0.ally_nbr(pi, stone, q)
                                                    && g0.stone_groups.same(i, q as int);
                                            assert(g0.stone_groups.same(fi, q as int));
                                        }
                                    }
                                    assert(false);
                                }
                            }
                            if g0.hit_pref(p, foeseq, kk, i) {
                                assert(ck.stone_groups.libs(i) == g0.stone_groups.libs(i).remove(
                                    p,
                                ));
                                assert(g0.stone_groups.libs(i).remove(p).remove(p)
                                    =~= g0.stone_groups.libs(i).remove(p));
                            } else {
                                assert(ck.stone_groups.libs(i) == g0.stone_groups.libs(i));
                            }
                        } else {
                            assert(self.stone_groups.libs(i) == ck.stone_groups.libs(i));
                            if g0.hit_pref(p, foeseq, kk + 1, i) && !g0.hit_pref(p, foeseq, kk, i) {
                                assert(g0.stone_groups.same(i, fi));
                                assert(ck.stone_groups.same(i, fi));
                                assert(false);
                            }
                        }
                    }
                }
            }
            k2 += 1;
        }
        proof {
            old(self).lemma_finish_update(stone, pi, p, foeseq, h, *self);
        }
    }

    /// A move request targets an existing, empty cell.
    pub open spec fn move_ok_at(self, row: int, col: int) -> bool {
        self.board.in_bounds_spec(row, col) && self.board.cell(row, col) == Stone::Empty
    }

    /// The flat index a move request addresses.
    pub open spec fn move_target(self, row: int, col: int) -> int {
        self.board.fidx(row, col)
    }

    /// The published effect of a valid move at (row, col), relating the
    /// state before the move to the state after it: the mover's stone
    /// lands on the target, chains it captures are cleared whole, the
    /// stone fuses with its same-colored neighbors, liberty sets follow,
    /// the turn passes, and the move is numbered.
    pub open spec fn move_applied(self, post: Game<UI>, row: int, col: int) -> bool {
        &&& post.board.width == self.board.width
        &&& post.board.height == self.board.height
        &&& post.game_over == self.game_over
        &&& post.ui == self.ui
        &&& post.turn == !self.turn
        &&& post.move_number == (if self.move_number < usize::MAX {
            (self.move_number + 1) as usize
        } else {
            self.move_number
        })
        &&& forall|j: int|
            0 <= j < self.n() ==> #[trigger] post.board.cell_at(j) == (if j == self.move_target(
                row,
                col,
            ) {
                self.mover()
            } else if self.captured_cell(self.move_target(row, col), self.mover(), j) {
                Stone::Empty
            } else {
                self.board.cell_at(j)
            })
        &&& forall|i: int, j: int|
            #![trigger post.stone_groups.same(i, j)]
            0 <= i < self.n() && 0 <= j < self.n() ==> (post.stone_groups.same(i, j)
                <==> self.same_after_move(self.move_target(row, col), self.mover(), i, j))
        &&& forall|i: int|
            0 <= i < self.n() ==> #[trigger] post.stone_groups.libs(i) == (if self.captured_cell(
                self.move_target(row, col),
                self.mover(),
                i,
            ) {
                Set::<usize>::empty()
            } else if self.joins_new_group(self.move_target(row, col), self.mover(), i) {
                self.new_stone_libs(self.move_target(row, col), self.mover())
            } else if self.foe_hit(self.move_target(row, col), self.mover(), i) {
                self.stone_groups.libs(i).remove(self.move_target(row, col) as usize)
            } else {
                self.stone_groups.libs(i)
            })
    }

    /// The state after a valid move satisfies the whole-game invariant
    /// again.
    #[verifier::spinoff_prover]
    proof fn lemma_wf_after_move(self, stone: Stone, pi: int, p: usize, b: Game<UI>)
        requires
            self.wf(),
            stone != Stone::Empty,
            0 <= pi < self.n(),
            p as int == pi,
            self.board.cell_at(pi) == Stone::Empty,
            b.board.wf(),
            b.board.width == self.board.width,
            b.board.height == self.board.height,
            b.stone_groups.valid(),
            b.stone_groups.count() == self.n(),
            forall|j: int|
                0 <= j < self.n() ==> #[trigger] b.board.cell_at(j) == (if j == pi {
                    stone
                } else if self.captured_cell(pi, stone, j) {
                    Stone::Empty
                } else {
                    self.board.cell_at(j)
                }),
            forall|i: int, j: int|
                #![trigger b.stone_groups.same(i, j)]
                0 <= i < self.n() && 0 <= j < self.n() ==> (b.stone_groups.same(i, j)
                    <==> self.same_after_move(pi, stone, i, j)),
            forall|i: int|
                0 <= i < self.n() ==> #[trigger] b.stone_groups.libs(i) == (if self.captured_cell(
                    pi,
                    stone,
                    i,
                ) {
                    Set::<usize>::empty()
                } else if self.joins_new_group(pi, stone, i) {
                    self.new_stone_libs(pi, stone)
                } else if self.foe_hit(pi, stone, i) {
                    self.stone_groups.libs(i).remove(p)
                } else {
                    self.stone_groups.libs(i)
                }),
        ensures
            b.groups_monochrome(),
            b.empties_bare(),
            b.libs_are_empty_cells(),
            b.libs_touch_their_group(),
    {
        let n = self.n();
        // an empty cell's node is isolated, and cannot be captured
        assert forall|q: int|
            0 <= q < n && self.board.cell_at(q) == Stone::Empty implies !self.captured_cell(
            pi,
            stone,
            q,
        ) && !self.joins_new_group(pi, stone, q) && !self.foe_hit(pi, stone, q) || q == pi by {
            if self.captured_cell(pi, stone, q) {
                let f = choose|f: usize|
                    #[trigger] self.captured_nbr(pi, stone, f) && self.stone_groups.same(
                        q,
                        f as int,
                    );
                if q != f as int {
                    assert(self.board.cell_at(q) != Stone::Empty);
                }
                assert(false);
            }
        }
        assert forall|i: int, j: int|
            0 <= i < n && 0 <= j < n && i != j && #[trigger] b.stone_groups.same(
                i,
                j,
            ) implies b.board.cell_at(i) != Stone::Empty && b.board.cell_at(i) == b.board.cell_at(
            j,
        ) by {
            assert(self.same_after_move(pi, stone, i, j));
            assert(!self.captured_cell(pi, stone, i) && !self.captured_cell(pi, stone, j));
            if self.stone_groups.same(i, j) && !(self.joins_new_group(pi, stone, i)
                && self.joins_new_group(pi, stone, j)) {
                assert(i != pi) by {
                    if i == pi {
                        assert(self.board.cell_at(pi) != Stone::Empty);
                    }
                }
                assert(j != pi) by {
                    if j == pi {
                        assert(self.board.cell_at(pi) != Stone::Empty);
                    }
                }
                assert(b.board.cell_at(i) == self.board.cell_at(i));
                assert(b.board.cell_at(j) == self.board.cell_at(j));
            } else {
                assert(self.joins_new_group(pi, stone, i) && self.joins_new_group(pi, stone, j));
                assert(b.board.cell_at(i) == stone) by {
                    if i == pi {
                    } else {
                        let q = choose|q: usize|
                            #[trigger] self.ally_nbr(pi, stone, q) && self.stone_groups.same(
                                i,
                                q as int,
                            );
                        if i == q as int {
                        } else {
                            assert(self.board.cell_at(i) == self.board.cell_at(q as int));
                        }
                        assert(self.board.cell_at(i) == stone);
                    }
                }
                assert(b.board.cell_at(j) == stone) by {
                    if j == pi {
                    } else {
                        let q = choose|q: usize|
                            #[trigger] self.ally_nbr(pi, stone, q) && self.stone_groups.same(
                                j,
                                q as int,
                            );
                        if j == q as int {
                        } else {
                            assert(self.board.cell_at(j) == self.board.cell_at(q as int));
                        }
                        assert(self.board.cell_at(j) == stone);
                    }
                }
            }
        }
        assert forall|i: int|
            0 <= i < n && b.board.cell_at(i) == Stone::Empty implies (
        #[trigger] b.stone_groups.libs(i)) == Set::<usize>::empty() by {
            assert(i != pi);
            if self.captured_cell(pi, stone, i) {
            } else {
                assert(self.board.cell_at(i) == Stone::Empty);
                assert(!self.joins_new_group(pi, stone, i)) by {
                    if self.joins_new_group(pi, stone, i) {
                        let q = choose|q: usize|
                            #[trigger] self.ally_nbr(pi, stone, q) && self.stone_groups.same(
                                i,
                                q as int,
                            );
                        if i == q as int {
                        } else {
                            assert(self.board.cell_at(i) == self.board.cell_at(q as int));
                        }
                        assert(false);
                    }
                }
                assert(!self.foe_hit(pi, stone, i)) by {
                    if self.foe_hit(pi, stone, i) {
                        let q = choose|q: usize|
                            #[trigger] self.foe_nbr(pi, stone, q) && self.stone_groups.same(
                                i,
                                q as int,
                            );
                        if i == q as int {
                        } else {
                            assert(self.board.cell_at(i) == self.board.cell_at(q as int));
                        }
                        assert(false);
                    }
                }
            }
        }
        // no liberty set of the old state mentions an occupied cell, and a
        // liberty set of a chain that keeps its liberties cannot mention
        // the newly filled cell
        assert forall|i: int|
            0 <= i < n && !self.joins_new_group(pi, stone, i) && !self.foe_hit(pi, stone, i)
                && !self.captured_cell(pi, stone, i) implies !(
        #[trigger] self.stone_groups.libs(i)).contains(p) by {
            if self.stone_groups.libs(i).contains(p) {
                let j = choose|j: int|
                    0 <= j < n && (#[trigger] self.stone_groups.same(i, j)) && self.board.adj_flat(
                        j,
                        p as int,
                    );
                if self.board.cell_at(j) == Stone::Empty {
                    if i == j {
                        assert(self.stone_groups.libs(i) == Set::<usize>::empty());
                    } else {
                        assert(self.board.cell_at(j) != Stone::Empty);
                    }
                    assert(false);
                } else if self.board.cell_at(j) == stone {
                    assert(self.ally_nbr(pi, stone, j as usize)) by {
                        self.board.lemma_unflat(j);
                        self.board.lemma_unflat(pi);
                    }
                    assert(self.joins_new_group(pi, stone, i));
                    assert(false);
                } else {
                    assert(self.foe_nbr(pi, stone, j as usize)) by {
                        self.board.lemma_unflat(j);
                        self.board.lemma_unflat(pi);
                    }
                    assert(self.foe_hit(pi, stone, i));
                    assert(false);
                }
            }
        }
        assert forall|i: int, q: usize|
            0 <= i < n && #[trigger] b.stone_groups.libs(i).contains(q) implies q < n
                && b.board.cell_at(q as int) == Stone::Empty by {
            if self.captured_cell(pi, stone, i) {
            } else if self.joins_new_group(pi, stone, i) {
                assert(self.new_stone_libs(pi, stone).contains(q));
                assert(q != p);
                if self.empty_nbr(pi, q) {
                    assert(self.board.cell_at(q as int) == Stone::Empty);
                } else {
                    let a = choose|a: usize|
                        #[trigger] self.ally_nbr(pi, stone, a) && self.stone_groups.libs(
                            a as int,
                        ).contains(q);
                    assert(self.board.cell_at(q as int) == Stone::Empty);
                }
                assert(q as int != pi);
                assert(b.board.cell_at(q as int) == Stone::Empty);
            } else if self.foe_hit(pi, stone, i) {
                assert(self.stone_groups.libs(i).contains(q));
                assert(q != p);
                assert(self.board.cell_at(q as int) == Stone::Empty);
                assert(b.board.cell_at(q as int) == Stone::Empty);
            } else {
                assert(self.stone_groups.libs(i).contains(q));
                assert(q != p);
                assert(self.board.cell_at(q as int) == Stone::Empty);
                assert(b.board.cell_at(q as int) == Stone::Empty);
            }
        }
        assert forall|i: int, q: usize|
            0 <= i < n && #[trigger] b.stone_groups.libs(i).contains(q) implies exists|j: int|
                0 <= j < n && (#[trigger] b.stone_groups.same(i, j)) && b.board.adj_flat(
                    j,
                    q as int,
                ) by {
            if self.captured_cell(pi, stone, i) {
            } else if self.joins_new_group(pi, stone, i) {
                assert(self.new_stone_libs(pi, stone).contains(q));
                if self.empty_nbr(pi, q) {
                    assert(!self.captured_cell(pi, stone, pi));
                    assert(self.joins_new_group(pi, stone, pi));
                    assert(b.stone_groups.same(i, pi));
                    assert(b.board.adj_flat(pi, q as int));
                } else {
                    let a = choose|a: usize|
                        #[trigger] self.ally_nbr(pi, stone, a) && self.stone_groups.libs(
                            a as int,
                        ).contains(q);
                    let j = choose|j: int|
                        0 <= j < n && (#[trigger] self.stone_groups.same(a as int, j))
                            && self.board.adj_flat(j, q as int);
                    assert(self.joins_new_group(pi, stone, j));
                    assert(!self.captured_cell(pi, stone, j)) by {
                        if self.captured_cell(pi, stone, j) {
                            let f = choose|f: usize|
                                #[trigger] self.captured_nbr(pi, stone, f)
                                    && self.stone_groups.same(j, f as int);
                            assert(self.stone_groups.same(a as int, f as int));
                            if a == f {
                            } else {
                                assert(self.board.cell_at(a as int) == self.board.cell_at(
                                    f as int,
                                ));
                            }
                            assert(false);
                        }
                    }
                    assert(!self.captured_cell(pi, stone, i)) by {}
                    assert(b.stone_groups.same(i, j));
                    assert(b.board.adj_flat(j, q as int));
                }
            } else {
                assert(self.stone_groups.libs(i).contains(q));
                let j = choose|j: int|
                    0 <= j < n && (#[trigger] self.stone_groups.same(i, j)) && self.board.adj_flat(
                        j,
                        q as int,
                    );
                assert(!self.captured_cell(pi, stone, j)) by {
                    if self.captured_cell(pi, stone, j) {
                        let f = choose|f: usize|
                            #[trigger] self.captured_nbr(pi, stone, f) && self.stone_groups.same(
                                j,
                                f as int,
                            );
                        assert(self.stone_groups.same(i, f as int));
                        assert(self.captured_cell(pi, stone, i));
                        assert(false);
                    }
                }
                assert(b.stone_groups.same(i, j));
                assert(b.board.adj_flat(j, q as int));
            }
        }
    }

    /// Apply one move for the player to move. A request onto an occupied
    /// or out-of-bounds cell is rejected with `InvalidMove` and the whole
    /// game state is left untouched. A valid move runs the full pipeline:
    /// the new stone starts with its empty neighbors as liberties, merges
    /// with same-colored neighbor chains, takes its position out of
    /// opposing chains' liberties, captures those left without any
    /// (clearing every stone of theirs from the board), lands on the
    /// board, and the turn passes to the other player.
    #[verifier::rlimit(100)]
    #[verifier::spinoff_prover]
    pub fn make_move(&mut self, row: usize, col: usize) -> (res: Result<(), GoError>)
        requires
            old(self).wf(),
        ensures
            final(self).wf(),
            final(self).board.width == old(self).board.width,
            final(self).board.height == old(self).board.height,
            final(self).game_over == old(self).game_over,
            final(self).ui == old(self).ui,
            !old(self).move_ok_at(row as int, col as int) ==> res == Result::<(), GoError>::Err(
                GoError::InvalidMove,
            ) && *final(self) == *old(self),
            old(self).move_ok_at(row as int, col as int) ==> res == Result::<(), GoError>::Ok(())
                && old(self).move_applied(*final(self), row as int, col as int),
    {
        if !self.is_valid_move(row, col) {
            return Err(GoError::InvalidMove);
        }
        proof {
            old(self).board.lemma_flat(row as int, col as int);
        }
        let ghost pi = old(self).board.fidx(row as int, col as int);
        let ghost c = old(self).mover();
        let ghost n = old(self).n();
        let stn = if self.turn {
            Stone::Black
        } else {
            Stone::White
        };
        self.move_number = if self.move_number < usize::MAX {
            self.move_number + 1
        } else {
            self.move_number
        };
        let mv = GameMove::new(stn, (row, col), self.move_number);
        self.create_libs((row, col));
        let ghost g1 = *self;
        proof {
            let g0 = *old(self);
            assert forall|i: int, j: int|
                #![trigger g1.stone_groups.same(i, j)]
                0 <= i < n && 0 <= j < n implies (g1.stone_groups.same(i, j)
                <==> g0.stone_groups.same(i, j)) by {
                assert(g1.stone_groups.rep(i) == g0.stone_groups.rep(i));
                assert(g1.stone_groups.rep(j) == g0.stone_groups.rep(j));
            }
            assert(g1.empty_nbrs(pi) =~= g0.empty_nbrs(pi));
            assert(g1.stone_groups.libs(pi) == g0.empty_nbrs(pi));
            assert(g1.groups_monochrome());
            assert forall|i: int|
                0 <= i < n && i != pi && g1.board.cell_at(i) == Stone::Empty implies (
            #[trigger] g1.stone_groups.libs(i)) == Set::<usize>::empty() by {
                assert(g1.stone_groups.libs(i) == g0.stone_groups.libs(i));
            }
            assert(g1.libs_are_empty_cells()) by {
                assert forall|i: int, q: usize|
                    0 <= i < n && #[trigger] g1.stone_groups.libs(i).contains(q) implies q < n
                    && g1.board.cell_at(q as int) == Stone::Empty by {
                    if i == pi {
                        assert(g0.empty_nbr(pi, q));
                    } else {
                        if g0.stone_groups.same(i, pi) {
                            assert(i == pi);
                        }
                        assert(g1.stone_groups.libs(i) == g0.stone_groups.libs(i));
                    }
                }
            }
            assert(g1.libs_touch_their_group()) by {
                assert forall|i: int, q: usize|
                    0 <= i < n && #[trigger] g1.stone_groups.libs(i).contains(
                        q,
                    ) implies exists|j: int|
                    0 <= j < n && (#[trigger] g1.stone_groups.same(i, j)) && g1.board.adj_flat(
                        j,
                        q as int,
                    ) by {
                    if i == pi {
                        assert(g0.empty_nbr(pi, q));
                        assert(g1.stone_groups.same(i, pi) && g1.board.adj_flat(pi, q as int));
                    } else {
                        if g0.stone_groups.same(i, pi) {
                            assert(i == pi);
                        }
                        assert(g1.stone_groups.libs(i) == g0.stone_groups.libs(i));
                        assert(g0.stone_groups.libs(i).contains(q));
                        let j = choose|j: int|
                            0 <= j < n && (#[trigger] g0.stone_groups.same(i, j))
                                && g0.board.adj_flat(j, q as int);
                        assert(g1.stone_groups.same(i, j) && g1.board.adj_flat(j, q as int));
                    }
                }
            }
        }
        self.update_board((row, col), stn);
        let ghost g2 = *self;
        proof {
            let g0 = *old(self);
            // the pre-pipeline state g1 classifies neighbors as g0 does
            assert forall|q: usize| true implies (#[trigger] g1.captured_nbr(pi, stn, q)
                <==> g0.captured_nbr(pi, c, q)) by {
                if g1.foe_nbr(pi, c, q) {
                    if g1.stone_groups.same(q as int, pi) {
                        assert(g0.stone_groups.same(q as int, pi));
                        assert(q as int == pi);
                        assert(false);
                    }
                    assert(g1.stone_groups.libs(q as int) == g0.stone_groups.libs(q as int));
                }
            }
            assert forall|j: int| 0 <= j < n implies (#[trigger] g1.captured_cell(pi, stn, j)
                <==> g0.captured_cell(pi, c, j)) by {
                if g1.captured_cell(pi, stn, j) {
                    let q = choose|q: usize|
                        #[trigger] g1.captured_nbr(pi, stn, q) && g1.stone_groups.same(j, q as int);
                    assert(g0.captured_nbr(pi, c, q) && g0.stone_groups.same(j, q as int));
                }
                if g0.captured_cell(pi, c, j) {
                    let q = choose|q: usize|
                        #[trigger] g0.captured_nbr(pi, c, q) && g0.stone_groups.same(j, q as int);
                    assert(g1.captured_nbr(pi, stn, q) && g1.stone_groups.same(j, q as int));
                }
            }
            assert forall|j: int| 0 <= j < n implies (#[trigger] g1.joins_new_group(pi, stn, j)
                <==> g0.joins_new_group(pi, c, j)) by {
                if g1.joins_new_group(pi, stn, j) && j != pi {
                    let q = choose|q: usize|
                        #[trigger] g1.ally_nbr(pi, stn, q) && g1.stone_groups.same(j, q as int);
                    assert(g0.ally_nbr(pi, c, q) && g0.stone_groups.same(j, q as int));
                }
                if g0.joins_new_group(pi, c, j) && j != pi {
                    let q = choose|q: usize|
                        #[trigger] g0.ally_nbr(pi, c, q) && g0.stone_groups.same(j, q as int);
                    assert(g1.ally_nbr(pi, stn, q) && g1.stone_groups.same(j, q as int));
                }
            }
            assert forall|j: int| 0 <= j < n implies (#[trigger] g1.foe_hit(pi, stn, j)
                <==> g0.foe_hit(pi, c, j)) by {
                if g1.foe_hit(pi, stn, j) {
                    let q = choose|q: usize|
                        #[trigger] g1.foe_nbr(pi, stn, q) && g1.stone_groups.same(j, q as int);
                    assert(g0.foe_nbr(pi, c, q) && g0.stone_groups.same(j, q as int));
                }
                if g0.foe_hit(pi, c, j) {
                    let q = choose|q: usize|
                        #[trigger] g0.foe_nbr(pi, c, q) && g0.stone_groups.same(j, q as int);
                    assert(g1.foe_nbr(pi, stn, q) && g1.stone_groups.same(j, q as int));
                }
            }
            assert(g1.new_stone_libs(pi, stn) =~= g0.new_stone_libs(pi, c)) by {
                assert forall|z: usize|
                    g1.new_stone_libs(pi, stn).contains(z) implies g0.new_stone_libs(
                    pi,
                    c,
                ).contains(z) by {
                    if !g1.empty_nbr(pi, z) {
                        let q = choose|q: usize|
                            #[trigger] g1.ally_nbr(pi, stn, q) && g1.stone_groups.libs(
                                q as int,
                            ).contains(z);
                        if g1.stone_groups.same(q as int, pi) {
                            assert(q as int == pi);
                            assert(false);
                        }
                        assert(g0.ally_nbr(pi, c, q) && g0.stone_groups.libs(q as int).contains(
                            z,
                        ));
                    }
                }
                assert forall|z: usize|
                    g0.new_stone_libs(pi, c).contains(z) implies g1.new_stone_libs(
                    pi,
                    stn,
                ).contains(z) by {
                    if !g0.empty_nbr(pi, z) {
                        let q = choose|q: usize|
                            #[trigger] g0.ally_nbr(pi, c, q) && g0.stone_groups.libs(
                                q as int,
                            ).contains(z);
                        if g0.stone_groups.same(q as int, pi) {
                            assert(q as int == pi);
                            assert(false);
                        }
                        assert(g1.ally_nbr(pi, stn, q) && g1.stone_groups.libs(q as int).contains(
                            z,
                        ));
                    }
                }
            }
            assert forall|i: int, j: int|
                #![trigger g2.stone_groups.same(i, j)]
                0 <= i < n && 0 <= j < n implies (g2.stone_groups.same(i, j)
                <==> g0.same_after_move(pi, c, i, j)) by {
                assert(g2.stone_groups.same(i, j) <==> g1.same_after_move(pi, stn, i, j));
            }
        }
        self.board.place_stone(&mv);
        self.turn = !self.turn;
        proof {
            let g0 = *old(self);
            assert forall|j: int|
                0 <= j < n implies #[trigger] self.board.cell_at(j) == (if j == pi {
                c
            } else if g0.captured_cell(pi, c, j) {
                Stone::Empty
            } else {
                g0.board.cell_at(j)
            }) by {
                g0.board.lemma_unflat(j);
                let rj = g0.board.row_of(j);
                let cj = g0.board.col_of(j);
                assert(self.board.row_of(j) == rj && self.board.col_of(j) == cj);
                assert(g2.board.row_of(j) == rj && g2.board.col_of(j) == cj);
                assert(g2.board.cell_at(j) == (if g1.captured_cell(pi, stn, j) {
                    Stone::Empty
                } else {
                    g1.board.cell_at(j)
                }));
                if j == pi {
                    assert(self.board.cell(row as int, col as int) == stn);
                    assert(rj == row as int && cj == col as int);
                } else {
                    assert(!(rj == row as int && cj == col as int)) by {
                        if rj == row as int && cj == col as int {
                            assert(g0.board.fidx(rj, cj) == j);
                        }
                    }
                    assert(self.board.cell(rj, cj) == g2.board.cell(rj, cj));
                    assert(self.board.cell_at(j) == g2.board.cell_at(j));
                    assert(g1.board.cell_at(j) == g0.board.cell_at(j));
                }
            }
            assert(self.board.n() == n) by (nonlinear_arith)
                requires
                    self.board.width == g0.board.width,
                    self.board.height == g0.board.height,
                    n == g0.board.width * g0.board.height,
            ;
            g0.lemma_wf_after_move(c, pi, (g0.board.fidx(row as int, col as int)) as usize, *self);
            assert(self.wf());
            assert(g0.move_applied(*self, row as int, col as int));
        }
        Ok(())
    }

    /// Whether a move request targets an existing, empty cell. The only
    /// legality condition the engine enforces.
    pub fn is_valid_move(&self, row: usize, col: usize) -> (r: bool)
        requires
            self.wf(),
        ensures
            r == (self.board.in_bounds_spec(row as int, col as int) && self.board.cell(
                row as int,
                col as int,
            ) == Stone::Empty),
    {
        self.board.in_bounds(row, col) && self.board.stone_at(row, col) == Stone::Empty
    }
}

impl<UI> Game<UI> {
    /// Apply one decoded user action: a move request runs the move
    /// pipeline (an invalid request is swallowed, leaving the game
    /// unchanged, so the session keeps accepting moves), a quit request
    /// ends the game and touches nothing else, and a no-op changes
    /// nothing. Never fails.
    pub fn apply_action(&mut self, action: UserAction) -> (res: Result<(), GoError>)
        requires
            old(self).wf(),
        ensures
            final(self).wf(),
            res == Result::<(), GoError>::Ok(()),
            final(self).board.width == old(self).board.width,
            final(self).board.height == old(self).board.height,
            final(self).ui == old(self).ui,
            action == UserAction::Quit ==> final(self).game_over && final(self).board == old(
                self,
            ).board && final(self).stone_groups == old(self).stone_groups && final(self).turn
                == old(self).turn && final(self).move_number == old(self).move_number,
            action == UserAction::Noop ==> *final(self) == *old(self),
            action matches UserAction::Move(row, col) ==> (if old(self).move_ok_at(
                row as int,
                col as int,
            ) {
                old(self).move_applied(*final(self), row as int, col as int)
            } else {
                *final(self) == *old(self)
            }),
    {
        match action {
            UserAction::Move(row, col) => {
                match self.make_move(row, col) {
                    Ok(()) => Ok(()),
                    // rejected: state unchanged, the caller may re-prompt
                    Err(_) => Ok(()),
                }
            },
            UserAction::Quit => {
                self.game_over = true;
                Ok(())
            },
            UserAction::Noop => Ok(()),
        }
    }
}

impl<UI: UserInterface> Game<UI> {
    /// Advance the session by one interaction: ask the interface for an
    /// action and apply it, with the per-action semantics stated on
    /// `apply_action`. An interface failure is surfaced to the caller and
    /// leaves the rules state untouched.
    pub fn update(&mut self) -> (res: Result<(), GoError>)
        requires
            old(self).wf(),
        ensures
            final(self).wf(),
            final(self).board.width == old(self).board.width,
            final(self).board.height == old(self).board.height,
            res is Err ==> final(self).board == old(self).board && final(self).stone_groups
                == old(self).stone_groups && final(self).turn == old(self).turn && final(self).move_number == old(self).move_number && final(self).game_over == old(self).game_over,
    {
        match self.ui.input() {
            Ok(action) => self.apply_action(action),
            Err(e) => Err(e),
        }
    }

    /// Hand the interface a read-only snapshot of the board to render.
    /// The rules state is untouched.
    pub fn view_board(&mut self) -> (res: Result<(), GoError>)
        requires
            old(self).wf(),
        ensures
            final(self).wf(),
            final(self).board == old(self).board,
            final(self).stone_groups == old(self).stone_groups,
            final(self).turn == old(self).turn,
            final(self).move_number == old(self).move_number,
            final(self).game_over == old(self).game_over,
    {
        self.ui.view(&self.board)
    }
}

/// A freshly placed stone with no same-colored neighbor keeps a chain of
/// its own whose liberty set is exactly its empty in-bounds orthogonal
/// neighbors: two from a corner, three from an edge, four from the
/// interior, less any occupied ones.
#[verifier::rlimit(100)]
#[verifier::spinoff_prover]
pub proof fn law_fresh_stone_liberties<UI>(g: Game<UI>, row: int, col: int)
    requires
        g.wf(),
        g.move_ok_at(row, col),
        forall|q: usize| !g.ally_nbr(g.move_target(row, col), g.mover(), q),
    ensures
        g.new_stone_libs(g.move_target(row, col), g.mover()) == g.empty_nbrs(
            g.move_target(row, col),
        ),
        g.empty_nbrs(g.move_target(row, col)).len() == (if row > 0 && g.board.cell(row - 1, col)
            == Stone::Empty {
            1int
        } else {
            0int
        }) + (if row + 1 < g.board.height && g.board.cell(row + 1, col) == Stone::Empty {
            1int
        } else {
            0int
        }) + (if col > 0 && g.board.cell(row, col - 1) == Stone::Empty {
            1int
        } else {
            0int
        }) + (if col + 1 < g.board.width && g.board.cell(row, col + 1) == Stone::Empty {
            1int
        } else {
            0int
        }),
{
    let p = g.move_target(row, col);
    let c = g.mover();
    g.board.lemma_flat(row, col);
    assert(g.new_stone_libs(p, c) =~= g.empty_nbrs(p)) by {
        assert forall|z: usize| g.empty_nbrs(p).contains(z) implies g.new_stone_libs(p, c).contains(
            z,
        ) by {
            assert(g.empty_nbr(p, z));
            assert(g.board.cell_at(z as int) == Stone::Empty);
            assert(g.board.cell_at(p) == Stone::Empty);
            if z as int == p {
                g.board.lemma_unflat(z as int);
                assert(!crate::board::adjacent(row, col, row, col));
                assert(false);
            }
        }
    }
    let has_u = row > 0 && g.board.cell(row - 1, col) == Stone::Empty;
    let has_d = row + 1 < g.board.height && g.board.cell(row + 1, col) == Stone::Empty;
    let has_l = col > 0 && g.board.cell(row, col - 1) == Stone::Empty;
    let has_r = col + 1 < g.board.width && g.board.cell(row, col + 1) == Stone::Empty;
    if row > 0 {
        g.board.lemma_flat(row - 1, col);
    }
    if row + 1 < g.board.height {
        g.board.lemma_flat(row + 1, col);
    }
    if col > 0 {
        g.board.lemma_flat(row, col - 1);
    }
    if col + 1 < g.board.width {
        g.board.lemma_flat(row, col + 1);
    }
    let s0 = Set::<usize>::empty();
    let s1 = if has_u {
        s0.insert(g.board.fidx(row - 1, col) as usize)
    } else {
        s0
    };
    let s2 = if has_d {
        s1.insert(g.board.fidx(row + 1, col) as usize)
    } else {
        s1
    };
    let s3 = if has_l {
        s2.insert(g.board.fidx(row, col - 1) as usize)
    } else {
        s2
    };
    let s4 = if has_r {
        s3.insert(g.board.fidx(row, col + 1) as usize)
    } else {
        s3
    };
    assert(g.empty_nbrs(p) =~= s4) by {
        assert forall|z: usize| g.empty_nbrs(p).contains(z) implies s4.contains(z) by {
            assert(g.empty_nbr(p, z));
            g.board.lemma_unflat(z as int);
            let r2 = g.board.row_of(z as int);
            let c2 = g.board.col_of(z as int);
            if r2 + 1 == row {
                assert(z as int == g.board.fidx(row - 1, col));
            } else if r2 == row + 1 {
                assert(z as int == g.board.fidx(row + 1, col));
            } else if c2 + 1 == col {
                assert(z as int == g.board.fidx(row, col - 1));
            } else {
                assert(z as int == g.board.fidx(row, col + 1));
            }
        }
        assert forall|z: usize| s4.contains(z) implies g.empty_nbrs(p).contains(z) by {}
    }
    assert(s4.len() == (if has_u {
        1int
    } else {
        0int
    }) + (if has_d {
        1int
    } else {
        0int
    }) + (if has_l {
        1int
    } else {
        0int
    }) + (if has_r {
        1int
    } else {
        0int
    })) by {
        assert(s0.len() == 0);
        if has_u {
            assert(!s0.contains(g.board.fidx(row - 1, col) as usize));
        }
        if has_d {
            assert(!s1.contains(g.board.fidx(row + 1, col) as usize)) by {
                if has_u {
                    assert(g.board.row_of(g.board.fidx(row - 1, col)) == row - 1);
                    assert(g.board.row_of(g.board.fidx(row + 1, col)) == row + 1);
                }
            }
        }
        if has_l {
            assert(!s2.contains(g.board.fidx(row, col - 1) as usize)) by {
                assert(g.board.col_of(g.board.fidx(row, col - 1)) == col - 1);
            }
        }
        if has_r {
            assert(!s3.contains(g.board.fidx(row, col + 1) as usize)) by {
                assert(g.board.col_of(g.board.fidx(row, col + 1)) == col + 1);
            }
        }
    }
}

/// Placing a stone next to a same-colored neighbor connects the two, and
/// when that neighbor's chain is the only adjacent ally the merged
/// liberty set is the union of the two individual liberty sets minus the
/// two occupied positions.
pub proof fn law_adjacent_stones_connect<UI>(g: Game<UI>, row: int, col: int, a: usize)
    requires
        g.wf(),
        g.move_ok_at(row, col),
        g.ally_nbr(g.move_target(row, col), g.mover(), a),
        forall|q: usize|
            g.ally_nbr(g.move_target(row, col), g.mover(), q) ==> g.stone_groups.same(
                q as int,
                a as int,
            ),
    ensures
        g.same_after_move(g.move_target(row, col), g.mover(), g.move_target(row, col), a as int),
        g.new_stone_libs(g.move_target(row, col), g.mover()) == g.empty_nbrs(
            g.move_target(row, col),
        ).union(g.stone_groups.libs(a as int)).remove(
            g.move_target(row, col) as usize,
        ).remove(a),
{
    let p = g.move_target(row, col);
    let c = g.mover();
    g.board.lemma_flat(row, col);
    assert(g.joins_new_group(p, c, a as int)) by {
        assert(g.ally_nbr(p, c, a) && g.stone_groups.same(a as int, a as int));
    }
    assert(!g.captured_cell(p, c, a as int)) by {
        if g.captured_cell(p, c, a as int) {
            let f = choose|f: usize|
                #[trigger] g.captured_nbr(p, c, f) && g.stone_groups.same(a as int, f as int);
            if a == f {
            } else {
                assert(g.board.cell_at(a as int) == g.board.cell_at(f as int));
            }
            assert(false);
        }
    }
    assert(!g.captured_cell(p, c, p)) by {
        if g.captured_cell(p, c, p) {
            let f = choose|f: usize|
                #[trigger] g.captured_nbr(p, c, f) && g.stone_groups.same(p, f as int);
            if p == f as int {
            } else {
                assert(g.board.cell_at(p) != Stone::Empty);
            }
            assert(false);
        }
    }
    assert(g.new_stone_libs(p, c) =~= g.empty_nbrs(p).union(g.stone_groups.libs(a as int)).remove(
        p as usize,
    ).remove(a)) by {
        assert(!g.empty_nbrs(p).contains(a)) by {
            if g.empty_nbrs(p).contains(a) {
                assert(g.board.cell_at(a as int) == Stone::Empty);
            }
        }
        assert(!g.stone_groups.libs(a as int).contains(a)) by {
            if g.stone_groups.libs(a as int).contains(a) {
                assert(g.board.cell_at(a as int) == Stone::Empty);
            }
        }
        assert forall|z: usize|
            g.new_stone_libs(p, c).contains(z) implies g.empty_nbrs(p).union(
            g.stone_groups.libs(a as int),
        ).remove(p as usize).remove(a).contains(z) by {
            if !g.empty_nbr(p, z) {
                let q = choose|q: usize|
                    #[trigger] g.ally_nbr(p, c, q) && g.stone_groups.libs(q as int).contains(z);
                g.stone_groups.lemma_same_libs(q as int, a as int);
                assert(g.stone_groups.libs(a as int).contains(z));
            }
            assert(z != a) by {
                if z == a {
                    if g.empty_nbr(p, z) {
                        assert(g.board.cell_at(a as int) == Stone::Empty);
                    } else {
                        assert(g.board.cell_at(z as int) == Stone::Empty);
                    }
                    assert(false);
                }
            }
        }
        assert forall|z: usize|
            g.empty_nbrs(p).union(g.stone_groups.libs(a as int)).remove(p as usize).remove(
                a,
            ).contains(z) implies g.new_stone_libs(p, c).contains(z) by {
            if !g.empty_nbr(p, z) {
                assert(g.stone_groups.libs(a as int).contains(z));
                assert(g.ally_nbr(p, c, a) && g.stone_groups.libs(a as int).contains(z));
            }
        }
    }
}

/// A chain whose last liberty is the point just played is captured whole:
/// every one of its stones is cleared to `Empty` on the board produced by
/// the move, and its liberty set reports empty (minus the played point)
/// just before the removal.
pub proof fn law_capture_clears_group<UI>(g: Game<UI>, b: Game<UI>, row: int, col: int, f: usize)
    requires
        g.wf(),
        g.move_ok_at(row, col),
        g.captured_nbr(g.move_target(row, col), g.mover(), f),
        forall|j: int|
            0 <= j < g.n() ==> #[trigger] b.board.cell_at(j) == (if j == g.move_target(row, col) {
                g.mover()
            } else if g.captured_cell(g.move_target(row, col), g.mover(), j) {
                Stone::Empty
            } else {
                g.board.cell_at(j)
            }),
    ensures
        g.stone_groups.libs(f as int).remove(g.move_target(row, col) as usize).is_empty(),
        forall|j: int|
            0 <= j < g.n() && #[trigger] g.stone_groups.same(j, f as int) ==> b.board.cell_at(j)
                == Stone::Empty,
{
    let p = g.move_target(row, col);
    let c = g.mover();
    g.board.lemma_flat(row, col);
    assert forall|j: int|
        0 <= j < g.n() && #[trigger] g.stone_groups.same(j, f as int) implies b.board.cell_at(j)
        == Stone::Empty by {
        assert(g.captured_cell(p, c, j)) by {
            assert(g.captured_nbr(p, c, f) && g.stone_groups.same(j, f as int));
        }
        assert(j != p) by {
            if j == p {
                assert(g.board.cell_at(f as int) != Stone::Empty);
                if p == f as int {
                } else {
                    assert(g.board.cell_at(p) != Stone::Empty);
                }
                assert(false);
            }
        }
    }
}

} // verus!
