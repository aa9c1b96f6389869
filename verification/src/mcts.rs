//! Monte-Carlo Tree Search over the game state: an arena of nodes rooted at
//! index 0, with parent/child links as indices, driving
//! selection, expansion, evaluation and backpropagation.
//!
//! All statistics are fixed-point integers in [`SCALE`] units; evaluations
//! are scalars in `[-SCALE, SCALE]` from the fixed canonical perspective
//! (positive is good for Black), and each node accumulates value relative to
//! its own player to move, so a parent negates a child's mean when reading
//! it during selection.
use vstd::prelude::*;

use crate::board::{cell_at, wins_through, Action, Board, Outcome, Player, SquareState};
use crate::sets::{distinct_elems, lemma_swap_removed_props, swap_removed};
use crate::utils::{ilog2, isqrt, lemma_log2_floor_mono, log2_floor, seq_sum_u64, sqrt_floor};

verus! {

/// The fixed-point unit: the value 1 is represented as `SCALE`.
pub const SCALE: u64 = 10000;

/// Visit counts stay below this cap so that every product in the
/// fixed-point selection formula fits its integer type.
pub const VISIT_CAP: u64 = 0x100_0000_0000;

/// The base-ten logarithm of two in `SCALE` units: the step of the
/// staircase approximation of the slow-growing exploration factor.
pub const LOG10_TWO_FP: u64 = 3010;

/// The tuning constants of the engine, explicit so that callers and test
/// suites can vary them.
pub struct MctsConfig {
    /// `c_base` of the PUCT exploration factor.
    pub c_base: u64,
    /// `c_init` of the PUCT exploration factor, in `SCALE` units.
    pub c_init_fp: u64,
    /// The weight of exploration noise mixed into root priors, in `SCALE`
    /// units.
    pub epsilon_fp: u64,
}

impl MctsConfig {
    /// Bounds under which the selection formula cannot overflow.
    pub open spec fn wf(&self) -> bool {
        &&& 1 <= self.c_base <= 1_000_000_000
        &&& self.c_init_fp <= 100 * SCALE
        &&& self.epsilon_fp <= SCALE
    }

    /// The customary values: `c_base` 19652, `c_init` 1.25, noise weight
    /// 0.25.
    pub fn standard() -> (r: Self)
        ensures
            r.wf(),
            r.c_base == 19652,
            r.c_init_fp == 12500,
            r.epsilon_fp == 2500,
    {
        MctsConfig { c_base: 19652, c_init_fp: 12500, epsilon_fp: 2500 }
    }
}

/// One node of the search tree.
pub struct Node {
    /// The action that produced this node; absent at the root.
    pub action: Option<Action>,
    /// The arena indices of the children.
    pub children: Vec<usize>,
    /// The accumulated value in `SCALE` units, relative to this node's own
    /// player to move.
    pub total_value: i64,
    /// The prior probability of the action, in `SCALE` units.
    pub prior: u64,
    /// How many backpropagations have passed through this node.
    pub visit_count: u64,
    /// The player to move at this node.
    pub turn: Player,
    /// The position this node's path replays to, recorded as ghost data
    /// when the node is created: what makes selection provably able to
    /// replay every arena path on the scratch board.
    pub pos: Ghost<Position>,
}

/// The observable content of a board position, as plain spec data: the
/// padded grid's squares, the legal actions in storage order, the player to
/// move, the outcome, and the stone count.
pub ghost struct Position {
    pub cells: Seq<SquareState>,
    pub legal: Seq<Action>,
    pub turn: Player,
    pub outcome: Option<Outcome>,
    pub stones: int,
}

/// Whether the board's observable state is exactly the position `p`.
pub open spec fn board_matches(b: Board, p: Position) -> bool {
    &&& b.cells() == p.cells
    &&& b.legal_elems() == p.legal
    &&& b.turn == p.turn
    &&& b.outcome == p.outcome
    &&& b.num_stones_placed == p.stones
}

/// How placing one stone transforms a position on a board of the given
/// configuration: the model-level mirror of `make_action`'s successful
/// contract.
pub open spec fn position_after_action(
    pre: Position,
    post: Position,
    a: Action,
    size: int,
    k: int,
) -> bool {
    let side = size + 2 * (k - 1);
    let target = (a.0 + k - 1) * side + (a.1 + k - 1);
    &&& post.cells == pre.cells.update(target, SquareState::Occupied(pre.turn))
    &&& post.stones == pre.stones + 1
    &&& post.outcome == (if wins_through(
        post.cells,
        side,
        k,
        size,
        a.0 as int,
        a.1 as int,
        pre.turn,
    ) {
        Some(Outcome::Winner(pre.turn))
    } else if post.stones == size * size {
        Some(Outcome::Draw)
    } else {
        None
    })
    &&& post.turn == (if post.outcome is None {
        pre.turn.opposite_spec()
    } else {
        pre.turn
    })
    &&& exists|i: int|
        0 <= i < pre.legal.len() && pre.legal[i] == a && post.legal == swap_removed(pre.legal, i)
}

/// The reachability invariant of the arena: every recorded legal list is
/// duplicate-free; every expanded node's position is live, its children
/// enumerate that position's legal actions in storage order, and each child
/// records the position its action reaches; and a node that was visited yet
/// never expanded sits on a finished position.
pub open spec fn arena_positions_wf(ns: Seq<Node>, size: int, k: int) -> bool {
    &&& forall|i: int| 0 <= i < ns.len() ==> distinct_elems((#[trigger] ns[i]).pos@.legal)
    &&& forall|i: int|
        0 <= i < ns.len() && (#[trigger] ns[i]).children@.len() > 0 ==> {
            &&& ns[i].pos@.outcome is None
            &&& ns[i].children@.len() == ns[i].pos@.legal.len()
            &&& forall|j: int|
                0 <= j < ns[i].children@.len() ==> {
                    let child = ns[(#[trigger] ns[i].children@[j]) as int];
                    &&& child.action == Some(ns[i].pos@.legal[j])
                    &&& position_after_action(
                        ns[i].pos@,
                        child.pos@,
                        ns[i].pos@.legal[j],
                        size,
                        k,
                    )
                }
        }
    &&& forall|i: int|
        0 <= i < ns.len() && (#[trigger] ns[i]).children@.len() == 0 && ns[i].visit_count > 0
            ==> ns[i].pos@.outcome is Some
    &&& forall|i: int|
        0 <= i < ns.len() && (#[trigger] ns[i]).pos@.outcome is None ==> ns[i].turn
            == ns[i].pos@.turn
}

/// The reachability invariant only reads children, actions, positions and
/// (for its terminal-leaf clause) visit counts, so it carries over to any
/// arena that keeps the first three and settles the last.
proof fn lemma_positions_wf_transfer(ns1: Seq<Node>, ns2: Seq<Node>, size: int, k: int)
    requires
        arena_links_wf(ns1),
        arena_positions_wf(ns1, size, k),
        ns2.len() == ns1.len(),
        forall|i: int|
            0 <= i < ns2.len() ==> (#[trigger] ns2[i]).children == ns1[i].children && ns2[i].action
                == ns1[i].action && ns2[i].turn == ns1[i].turn && ns2[i].pos == ns1[i].pos,
        forall|i: int|
            0 <= i < ns2.len() && (#[trigger] ns2[i]).children@.len() == 0 && ns2[i].visit_count
                > 0 ==> ns2[i].pos@.outcome is Some,
    ensures
        arena_positions_wf(ns2, size, k),
{
    assert forall|i: int|
        0 <= i < ns2.len() && (#[trigger] ns2[i]).children@.len() > 0 implies {
        &&& ns2[i].pos@.outcome is None
        &&& ns2[i].children@.len() == ns2[i].pos@.legal.len()
        &&& forall|j: int|
            0 <= j < ns2[i].children@.len() ==> {
                let child = ns2[(#[trigger] ns2[i].children@[j]) as int];
                &&& child.action == Some(ns2[i].pos@.legal[j])
                &&& position_after_action(ns2[i].pos@, child.pos@, ns2[i].pos@.legal[j], size, k)
            }
    } by {
        assert(ns1[i].children@.len() > 0);
        assert forall|j: int| 0 <= j < ns2[i].children@.len() implies {
            let child = ns2[(#[trigger] ns2[i].children@[j]) as int];
            &&& child.action == Some(ns2[i].pos@.legal[j])
            &&& position_after_action(ns2[i].pos@, child.pos@, ns2[i].pos@.legal[j], size, k)
        } by {
            assert(ns2[i].children@[j] == ns1[i].children@[j]);
            let c = ns1[i].children@[j] as int;
            assert(0 <= c < ns1.len());
            assert(ns1[c].action == Some(ns1[i].pos@.legal[j]));
            assert(position_after_action(ns1[i].pos@, ns1[c].pos@, ns1[i].pos@.legal[j], size, k));
            assert(ns2[c].action == ns1[c].action && ns2[c].pos == ns1[c].pos);
            assert(ns2[i].pos == ns1[i].pos);
        }
    }
}

/// Signed division truncated toward zero, with 0 on a zero divisor.
pub open spec fn div_toward_zero(a: int, b: int) -> int {
    if b == 0 {
        0
    } else if a >= 0 {
        a / b
    } else {
        -((-a) / b)
    }
}

/// The staircase approximation of `log10((1 + parent + c_base) / c_base)`
/// in `SCALE` units: the difference of the floor base-two logarithms, times
/// `log10(2)`. Each staircase step is `log10(2)`, about 0.3, of a c-unit:
/// coarse, but monotone and exactly what the selection score states.
pub open spec fn growth_fp(parent: int, c_base: int) -> int {
    (log2_floor(1 + parent + c_base) - log2_floor(c_base)) * LOG10_TWO_FP
}

/// The exploration factor `c(N) = c_init + log10((1 + N + c_base) / c_base)`
/// of PUCT, in `SCALE` units, with the logarithm approximated by
/// [`growth_fp`].
pub open spec fn c_puct_fp(parent: int, config: MctsConfig) -> int {
    config.c_init_fp + growth_fp(parent, config.c_base as int)
}

impl Node {
    /// The statistics are within the bounds that keep the selection formula
    /// inside its integer types.
    pub open spec fn stats_wf(&self) -> bool {
        &&& self.visit_count <= VISIT_CAP
        &&& -((SCALE as int) * (self.visit_count as int)) <= self.total_value as int <= (
        SCALE as int) * (self.visit_count as int)
        &&& self.prior <= SCALE
    }

    /// The mean accumulated value in `SCALE` units, 0 before any visit,
    /// truncated toward zero.
    pub open spec fn mean_spec(&self) -> int {
        div_toward_zero(self.total_value as int, self.visit_count as int)
    }

    /// The PUCT score of this node as a child of a parent with
    /// `parent_visits` visits, in `SCALE` units, from the selecting parent's
    /// perspective: the negated mean (the node's value is relative to its
    /// own player to move, so the parent negates it) plus the exploration
    /// term `c(N) * prior * sqrt(N) / (1 + n)`.
    pub open spec fn ucb_spec(&self, parent_visits: int, config: MctsConfig) -> int {
        -self.mean_spec() + (c_puct_fp(parent_visits, config) * self.prior * sqrt_floor(
            parent_visits * SCALE * SCALE,
        )) / ((1 + self.visit_count) * SCALE * SCALE)
    }

    /// A fresh node: no children, no visits, no accumulated value.
    pub fn new(action: Option<Action>, turn: Player, prior: u64) -> (r: Node)
        requires
            prior <= SCALE,
        ensures
            r.action == action,
            r.turn == turn,
            r.prior == prior,
            r.children@.len() == 0,
            r.total_value == 0,
            r.visit_count == 0,
            r.stats_wf(),
    {
        Node {
            action,
            turn,
            prior,
            children: Vec::new(),
            total_value: 0,
            visit_count: 0,
            pos: Ghost(arbitrary()),
        }
    }

    /// The mean accumulated value, 0 before any visit.
    pub fn value(&self) -> (r: i64)
        requires
            self.stats_wf(),
        ensures
            r == self.mean_spec(),
            -(SCALE as int) <= r as int <= SCALE as int,
    {
        if self.visit_count == 0 {
            return 0;
        }
        proof {
            lemma_div_bound(self.total_value as int, self.visit_count as int, SCALE as int);
        }
        if self.total_value >= 0 {
            ((self.total_value as u64) / self.visit_count) as i64
        } else {
            -((((-self.total_value) as u64) / self.visit_count) as i64)
        }
    }

    /// Whether this node is a frontier node: no materialized children.
    pub fn is_leaf(&self) -> (r: bool)
        ensures
            r == (self.children@.len() == 0),
    {
        self.children.is_empty()
    }

    /// The PUCT selection score of this node under a parent with
    /// `parent_visit_count` visits.
    pub fn ucb(&self, parent_visit_count: u64, config: &MctsConfig) -> (r: i128)
        requires
            self.stats_wf(),
            config.wf(),
            parent_visit_count <= VISIT_CAP,
        ensures
            r == self.ucb_spec(parent_visit_count as int, *config),
    {
        let q = self.value();
        let arg = 1 + parent_visit_count + config.c_base;
        let a = ilog2(arg);
        let b = ilog2(config.c_base);
        proof {
            lemma_log2_floor_mono(config.c_base as int, arg as int);
        }
        let growth = ((a - b) as u64) * LOG10_TWO_FP;
        let c_fp = config.c_init_fp + growth;
        let sq_arg = (parent_visit_count as u128) * 100_000_000u128;
        proof {
            assert(sq_arg <= 109_951_162_777_600_000_000u128) by (nonlinear_arith)
                requires
                    sq_arg == (parent_visit_count as u128) * 100_000_000u128,
                    parent_visit_count <= 0x100_0000_0000u64,
            ;
        }
        let sq = isqrt(sq_arg);
        proof {
            assert(sq <= 0x8_0000_0000u128) by (nonlinear_arith)
                requires
                    (sq as int) * (sq as int) <= sq_arg as int,
                    sq_arg <= 109_951_162_777_600_000_000u128,
            ;
            assert((c_fp as u128) * (self.prior as u128) * (sq as u128)
                <= 412_316_860_416_000_000_000_000u128) by (nonlinear_arith)
                requires
                    c_fp <= 1_200_000u64,
                    self.prior <= 10_000u64,
                    sq <= 0x8_0000_0000u128,
            ;
            assert((1 + self.visit_count as u128) * 100_000_000u128 < u128::MAX)
                by (nonlinear_arith)
                requires
                    self.visit_count <= 0x100_0000_0000u64,
            ;
        }
        proof {
            assert((c_fp as u128) * (self.prior as u128) <= 12_000_000_000u128)
                by (nonlinear_arith)
                requires
                    c_fp <= 1_200_000u64,
                    self.prior <= 10_000u64,
            ;
        }
        let num = (c_fp as u128) * (self.prior as u128) * (sq as u128);
        let den = (1 + self.visit_count as u128) * 100_000_000u128;
        let u = num / den;
        proof {
            assert(u <= num) by (nonlinear_arith)
                requires
                    u == num / den,
                    den >= 1,
                    num >= 0,
            ;
            assert(sq_arg as int == (parent_visit_count as int) * (SCALE as int) * (SCALE as int))
                by (nonlinear_arith)
                requires
                    sq_arg == (parent_visit_count as u128) * 100_000_000u128,
            ;
            assert(den as int == (1 + self.visit_count as int) * (SCALE as int) * (SCALE as int))
                by (nonlinear_arith)
                requires
                    den == (1 + self.visit_count as u128) * 100_000_000u128,
                    self.visit_count <= 0x100_0000_0000u64,
            ;
        }
        -(q as i128) + (u as i128)
    }

    /// Integrates one evaluation, given from the canonical perspective
    /// (positive is good for Black): the node accumulates it relative to its
    /// own player to move, and the visit count increments.
    pub fn update(&mut self, value: i64)
        requires
            old(self).stats_wf(),
            -(SCALE as int) <= value as int <= SCALE as int,
            old(self).visit_count < VISIT_CAP,
        ensures
            final(self).visit_count == old(self).visit_count + 1,
            final(self).total_value as int == old(self).total_value + (if old(self).turn
                == Player::Black {
                value as int
            } else {
                -(value as int)
            }),
            final(self).action == old(self).action,
            final(self).children == old(self).children,
            final(self).prior == old(self).prior,
            final(self).turn == old(self).turn,
            final(self).pos == old(self).pos,
            final(self).stats_wf(),
    {
        proof {
            let v = old(self).visit_count as int;
            assert((SCALE as int) * (v + 1) == (SCALE as int) * v + SCALE) by (nonlinear_arith);
            assert((SCALE as int) * (v + 1) <= (SCALE as int) * (VISIT_CAP as int))
                by (nonlinear_arith)
                requires
                    v + 1 <= VISIT_CAP as int,
            ;
        }
        match self.turn {
            Player::Black => {
                self.total_value = self.total_value + value;
            },
            Player::White => {
                self.total_value = self.total_value - value;
            },
        }
        self.visit_count = self.visit_count + 1;
    }
}

/// The sum of the visit counts of the nodes at the indices in `children`.
pub open spec fn sum_child_visits(ns: Seq<Node>, children: Seq<usize>) -> int
    decreases children.len(),
{
    if children.len() == 0 {
        0
    } else {
        sum_child_visits(ns, children.drop_last()) + ns[children.last() as int].visit_count
    }
}

/// Whether the elements of a sequence of indices are pairwise distinct.
pub open spec fn distinct_usizes(s: Seq<usize>) -> bool {
    forall|i: int, j: int| 0 <= i < j < s.len() ==> s[i] != s[j]
}

/// The structural arena invariant: every child link points forward and
/// into the arena, every node is the child of at most one parent, a child's
/// player to move is the opposite of its parent's, only the root lacks an
/// action, and every node's statistics are in bounds.
pub open spec fn arena_links_wf(ns: Seq<Node>) -> bool {
    &&& ns.len() >= 1
    &&& forall|i: int| 0 <= i < ns.len() ==> (#[trigger] ns[i]).stats_wf()
    &&& forall|i: int, j: int|
        0 <= i < ns.len() && 0 <= j < ns[i].children@.len() ==> i < (#[trigger] ns[i].children@[j])
            < ns.len()
    &&& forall|i1: int, j1: int, i2: int, j2: int|
        #![trigger ns[i1].children@[j1], ns[i2].children@[j2]]
        0 <= i1 < ns.len() && 0 <= j1 < ns[i1].children@.len() && 0 <= i2 < ns.len() && 0 <= j2
            < ns[i2].children@.len() && ns[i1].children@[j1] == ns[i2].children@[j2] ==> i1 == i2
            && j1 == j2
    &&& forall|i: int, j: int|
        0 <= i < ns.len() && 0 <= j < ns[i].children@.len() ==> ns[(#[trigger] ns[i].children@[j])
            as int].turn == ns[i].turn.opposite_spec() && ns[ns[i].children@[j] as int].action
            is Some
    &&& ns[0].action is None
}

/// The visit-count bookkeeping invariant: a parent's visit count equals the
/// sum of its children's, plus one for every non-root parent (whose first
/// visit, as the frontier, preceded its expansion); the root is expanded
/// eagerly before it is ever visited, so nothing is added for it.
pub open spec fn arena_counts_wf(ns: Seq<Node>) -> bool {
    forall|i: int|
        0 <= i < ns.len() && ns[i].children@.len() > 0 ==> #[trigger] sum_child_visits(
            ns,
            ns[i].children@,
        ) + (if i == 0 {
            0int
        } else {
            1int
        }) == ns[i].visit_count
}

/// The bookkeeping invariant everywhere except at one index (a frontier in
/// the middle of an iteration, already expanded but not yet credited with
/// the visit).
pub open spec fn arena_counts_wf_except(ns: Seq<Node>, x: int) -> bool {
    forall|i: int|
        0 <= i < ns.len() && ns[i].children@.len() > 0 && i != x ==> #[trigger] sum_child_visits(
            ns,
            ns[i].children@,
        ) + (if i == 0 {
            0int
        } else {
            1int
        }) == ns[i].visit_count
}

/// Whether `path` is a root-to-frontier walk: it starts at the root and
/// each step follows a child link.
pub open spec fn path_wf(ns: Seq<Node>, path: Seq<usize>) -> bool {
    &&& path.len() >= 1
    &&& path[0] == 0
    &&& forall|t: int| 0 <= t < path.len() ==> (#[trigger] path[t]) < ns.len()
    &&& forall|t: int|
        0 <= t < path.len() - 1 ==> ns[(#[trigger] path[t]) as int].children@.contains(path[t + 1])
}

/// Whether `i` occurs among the first `t` entries of `path`.
pub open spec fn in_prefix(path: Seq<usize>, t: int, i: int) -> bool {
    exists|s: int| 0 <= s < t && path[s] == i
}

/// Sums are untouched by arena changes that keep every summed visit count.
proof fn lemma_sum_same_except(ns1: Seq<Node>, ns2: Seq<Node>, c: Seq<usize>, x: int)
    requires
        forall|j: int|
            0 <= j < c.len() ==> (#[trigger] c[j]) < ns1.len() && c[j] < ns2.len() && (c[j] != x
                ==> ns1[c[j] as int].visit_count == ns2[c[j] as int].visit_count),
        !c.contains(x as usize) || x < 0,
    ensures
        sum_child_visits(ns1, c) == sum_child_visits(ns2, c),
    decreases c.len(),
{
    if c.len() > 0 {
        assert(c.drop_last().len() == c.len() - 1);
        assert forall|j: int| 0 <= j < c.drop_last().len() implies (#[trigger] c.drop_last()[j])
            < ns1.len() && c.drop_last()[j] < ns2.len() && (c.drop_last()[j] != x
            ==> ns1[c.drop_last()[j] as int].visit_count == ns2[c.drop_last()[j]
            as int].visit_count) by {
            assert(c.drop_last()[j] == c[j]);
        }
        if c.contains(x as usize) && x >= 0 {
            assert(false);
        }
        if !c.drop_last().contains(x as usize) || x < 0 {
        } else {
            let s = choose|s: int| 0 <= s < c.drop_last().len() && c.drop_last()[s] == x as usize;
            assert(c[s] == x as usize);
            assert(false);
        }
        lemma_sum_same_except(ns1, ns2, c.drop_last(), x);
        assert(c.last() != x || x < 0);
    }
}

/// Incrementing the visit count of one index that occurs exactly once in a
/// duplicate-free child list increments the sum by one.
proof fn lemma_sum_bump(ns1: Seq<Node>, ns2: Seq<Node>, c: Seq<usize>, x: usize)
    requires
        distinct_usizes(c),
        c.contains(x),
        x < ns1.len(),
        x < ns2.len(),
        ns2[x as int].visit_count == ns1[x as int].visit_count + 1,
        forall|j: int|
            0 <= j < c.len() ==> (#[trigger] c[j]) < ns1.len() && c[j] < ns2.len() && (c[j] != x
                ==> ns1[c[j] as int].visit_count == ns2[c[j] as int].visit_count),
    ensures
        sum_child_visits(ns2, c) == sum_child_visits(ns1, c) + 1,
    decreases c.len(),
{
    let last = c.last();
    if last == x {
        if c.drop_last().contains(x) {
            let s = choose|s: int| 0 <= s < c.drop_last().len() && c.drop_last()[s] == x;
            assert(c[s] == x && c[c.len() - 1] == x);
            assert(false);
        }
        lemma_sum_same_except(ns1, ns2, c.drop_last(), x as int);
    } else {
        let s = choose|s: int| 0 <= s < c.len() && c[s] == x;
        assert(s < c.len() - 1);
        assert(c.drop_last()[s] == x);
        assert(c.drop_last().contains(x));
        assert forall|j: int| 0 <= j < c.drop_last().len() implies (#[trigger] c.drop_last()[j])
            < ns1.len() && c.drop_last()[j] < ns2.len() && (c.drop_last()[j] != x
            ==> ns1[c.drop_last()[j] as int].visit_count == ns2[c.drop_last()[j]
            as int].visit_count) by {
            assert(c.drop_last()[j] == c[j]);
        }
        assert(distinct_usizes(c.drop_last())) by {
            assert forall|i: int, j: int| 0 <= i < j < c.drop_last().len() implies c.drop_last()[i]
                != c.drop_last()[j] by {
                assert(c.drop_last()[i] == c[i] && c.drop_last()[j] == c[j]);
            }
        }
        lemma_sum_bump(ns1, ns2, c.drop_last(), x);
    }
}

/// A sum over nodes with zero visit counts is zero.
proof fn lemma_sum_zero(ns: Seq<Node>, c: Seq<usize>)
    requires
        forall|j: int|
            0 <= j < c.len() ==> (#[trigger] c[j]) < ns.len() && ns[c[j] as int].visit_count == 0,
    ensures
        sum_child_visits(ns, c) == 0,
    decreases c.len(),
{
    if c.len() > 0 {
        assert forall|j: int| 0 <= j < c.drop_last().len() implies (#[trigger] c.drop_last()[j])
            < ns.len() && ns[c.drop_last()[j] as int].visit_count == 0 by {
            assert(c.drop_last()[j] == c[j]);
        }
        lemma_sum_zero(ns, c.drop_last());
    }
}

/// Every summand is at most the sum, since visit counts are non-negative.
proof fn lemma_sum_lower_bound(ns: Seq<Node>, c: Seq<usize>, j: int)
    requires
        0 <= j < c.len(),
        forall|t: int| 0 <= t < c.len() ==> (#[trigger] c[t]) < ns.len(),
    ensures
        ns[c[j] as int].visit_count <= sum_child_visits(ns, c),
    decreases c.len(),
{
    assert(sum_child_visits(ns, c) >= 0) by {
        lemma_sum_nonneg(ns, c);
    }
    if j == c.len() - 1 {
        lemma_sum_nonneg(ns, c.drop_last());
    } else {
        assert(c.drop_last()[j] == c[j]);
        lemma_sum_lower_bound(ns, c.drop_last(), j);
    }
}

/// A sum of visit counts is non-negative.
proof fn lemma_sum_nonneg(ns: Seq<Node>, c: Seq<usize>)
    ensures
        sum_child_visits(ns, c) >= 0,
    decreases c.len(),
{
    if c.len() > 0 {
        lemma_sum_nonneg(ns, c.drop_last());
        assert(ns[c.last() as int].visit_count >= 0);
    }
}

/// A root-to-frontier path is strictly increasing, since every child link
/// points forward.
proof fn lemma_path_increasing(ns: Seq<Node>, path: Seq<usize>)
    requires
        arena_links_wf(ns),
        path_wf(ns, path),
    ensures
        forall|t1: int, t2: int| 0 <= t1 < t2 < path.len() ==> path[t1] < path[t2],
    decreases path.len(),
{
    assert forall|t1: int, t2: int| 0 <= t1 < t2 < path.len() implies path[t1] < path[t2] by {
        lemma_path_step_increasing(ns, path, t1, t2);
    }
}

proof fn lemma_path_step_increasing(ns: Seq<Node>, path: Seq<usize>, t1: int, t2: int)
    requires
        arena_links_wf(ns),
        path_wf(ns, path),
        0 <= t1 < t2 < path.len(),
    ensures
        path[t1] < path[t2],
    decreases t2 - t1,
{
    let c = path[t2];
    let p = path[t2 - 1];
    assert(ns[p as int].children@.contains(c));
    let j = choose|j: int| 0 <= j < ns[p as int].children@.len() && ns[p as int].children@[j] == c;
    assert(p < c);
    if t1 < t2 - 1 {
        lemma_path_step_increasing(ns, path, t1, t2 - 1);
    }
}

/// Along a root-to-frontier path, visit counts never increase, so every
/// node on the path has at most the root's count.
proof fn lemma_path_visits_bounded(ns: Seq<Node>, path: Seq<usize>, t: int)
    requires
        arena_links_wf(ns),
        arena_counts_wf_except(ns, path.last() as int),
        path_wf(ns, path),
        0 <= t < path.len(),
    ensures
        ns[path[t] as int].visit_count <= ns[0].visit_count,
    decreases t,
{
    if t > 0 {
        let p = path[t - 1];
        let c = path[t];
        lemma_path_visits_bounded(ns, path, t - 1);
        assert(ns[p as int].children@.contains(c));
        let j = choose|j: int|
            0 <= j < ns[p as int].children@.len() && ns[p as int].children@[j] == c;
        lemma_sum_lower_bound(ns, ns[p as int].children@, j);
        lemma_path_increasing(ns, path);
        assert(p != path.last());
        assert(sum_child_visits(ns, ns[p as int].children@) + (if p == 0 {
            0int
        } else {
            1int
        }) == ns[p as int].visit_count);
    }
}

/// A selection that has been carried to a frontier and now awaits an
/// evaluation, in the stepwise oracle-driven interface.
pub struct PendingEvaluation {
    /// The walk from the root (inclusive) to the frontier node.
    pub path: Vec<usize>,
    /// The scratch board replayed to the frontier's position.
    pub scratch: Board,
}

/// The search engine: the arena of nodes (root at index 0), the
/// authoritative position the search starts from, the iteration budget, and
/// the tuning constants.
pub struct MCTS {
    /// The arena; node 0 is the root. Parent/child links are indices.
    pub nodes: Vec<Node>,
    /// The position the search recommends an action for.
    pub board: Board,
    /// How many iterations one `get_best_action` call runs.
    pub n_iterations: u64,
    /// The tuning constants.
    pub config: MctsConfig,
    /// A selection awaiting its evaluation, if the stepwise interface is in
    /// the middle of an iteration.
    pub pending: Option<PendingEvaluation>,
}

impl MCTS {
    /// Whether the `j`-th child of `children` attains the maximal selection
    /// score, and strictly exceeds every earlier child's score.
    pub open spec fn is_first_argmax(
        ns: Seq<Node>,
        children: Seq<usize>,
        parent_visits: int,
        config: MctsConfig,
        j: int,
    ) -> bool {
        &&& 0 <= j < children.len()
        &&& forall|t: int|
            0 <= t < children.len() ==> ns[(#[trigger] children[t]) as int].ucb_spec(
                parent_visits,
                config,
            ) <= ns[children[j] as int].ucb_spec(parent_visits, config)
        &&& forall|t: int|
            0 <= t < j ==> ns[(#[trigger] children[t]) as int].ucb_spec(parent_visits, config)
                < ns[children[j] as int].ucb_spec(parent_visits, config)
    }

    /// The root's children carry distinct actions, all legal on the board.
    pub open spec fn root_children_wf(&self) -> bool {
        let ns = self.nodes@;
        &&& forall|j: int|
            0 <= j < ns[0].children@.len() ==> self.board.legal_elems().contains(
                ns[(#[trigger] ns[0].children@[j]) as int].action.unwrap(),
            )
        &&& forall|j1: int, j2: int|
            #![trigger ns[0].children@[j1], ns[0].children@[j2]]
            0 <= j1 < j2 < ns[0].children@.len() ==> ns[ns[0].children@[j1] as int].action
                != ns[ns[0].children@[j2] as int].action
    }

    /// The stepwise iteration state, when present, is a valid walk to an
    /// unexpanded frontier, with a well-formed non-terminal scratch board of
    /// the same configuration whose player to move is the frontier's.
    pub open spec fn pending_wf(&self) -> bool {
        match self.pending {
            None => true,
            Some(p) => {
                &&& path_wf(self.nodes@, p.path@)
                &&& p.path@.len() >= 2
                &&& self.nodes@[p.path@.last() as int].children@.len() == 0
                &&& self.nodes@[p.path@.last() as int].visit_count == 0
                &&& p.scratch.wf()
                &&& p.scratch.outcome is None
                &&& p.scratch.size == self.board.size
                &&& p.scratch.n_in_a_row == self.board.n_in_a_row
                &&& board_matches(p.scratch, self.nodes@[p.path@.last() as int].pos@)
            },
        }
    }

    /// The engine's full invariant.
    pub open spec fn wf(&self) -> bool {
        &&& arena_links_wf(self.nodes@)
        &&& arena_counts_wf(self.nodes@)
        &&& arena_positions_wf(
            self.nodes@,
            self.board.size as int,
            self.board.n_in_a_row as int,
        )
        &&& board_matches(self.board, self.nodes@[0].pos@)
        &&& self.root_children_wf()
        &&& self.nodes@[0].turn == self.board.turn
        &&& self.board.wf()
        &&& self.config.wf()
        &&& self.pending_wf()
    }

    /// A fresh engine over a copy of `board`, with an unexpanded root and
    /// the customary tuning constants.
    pub fn new(board: &Board, n_iterations: u64) -> (r: Self)
        requires
            board.wf(),
        ensures
            r.wf(),
            r.n_iterations == n_iterations,
            r.nodes@.len() == 1,
            r.nodes@[0].children@.len() == 0,
            r.nodes@[0].visit_count == 0,
            r.nodes@[0].prior == 0,
            r.nodes@[0].total_value == 0,
            r.pending is None,
            r.board.size == board.size,
            r.board.n_in_a_row == board.n_in_a_row,
            r.board.turn == board.turn,
            r.board.outcome == board.outcome,
            r.board.num_stones_placed == board.num_stones_placed,
            r.board.cells() == board.cells(),
            r.board.legal_elems() == board.legal_elems(),
            r.config == (MctsConfig { c_base: 19652u64, c_init_fp: 12500u64, epsilon_fp: 2500u64 }),
    {
        let mut root = Node::new(None, board.turn, 0);
        let board = board.clone();
        root.pos = Ghost(
            Position {
                cells: board.cells(),
                legal: board.legal_elems(),
                turn: board.turn,
                outcome: board.outcome,
                stones: board.num_stones_placed as int,
            },
        );
        let mut nodes: Vec<Node> = Vec::new();
        nodes.push(root);
        MCTS { nodes, board, n_iterations, config: MctsConfig::standard(), pending: None }
    }

    /// How many nodes the arena holds.
    pub fn node_count(&self) -> (r: usize)
        ensures
            r == self.nodes@.len(),
    {
        self.nodes.len()
    }

    /// The root's visit count.
    pub fn root_visit_count(&self) -> (r: u64)
        requires
            self.nodes@.len() >= 1,
        ensures
            r == self.nodes@[0].visit_count,
    {
        self.nodes[0].visit_count
    }

    /// A node's visit count.
    pub fn node_visit_count(&self, i: usize) -> (r: u64)
        requires
            i < self.nodes@.len(),
        ensures
            r == self.nodes@[i as int].visit_count,
    {
        self.nodes[i].visit_count
    }

    /// A node's accumulated value, relative to its own player to move.
    pub fn node_total_value(&self, i: usize) -> (r: i64)
        requires
            i < self.nodes@.len(),
        ensures
            r == self.nodes@[i as int].total_value,
    {
        self.nodes[i].total_value
    }

    /// A node's prior, in `SCALE` units.
    pub fn node_prior(&self, i: usize) -> (r: u64)
        requires
            i < self.nodes@.len(),
        ensures
            r == self.nodes@[i as int].prior,
    {
        self.nodes[i].prior
    }

    /// The action that produced a node; absent at the root.
    pub fn node_action(&self, i: usize) -> (r: Option<Action>)
        requires
            i < self.nodes@.len(),
        ensures
            r == self.nodes@[i as int].action,
    {
        self.nodes[i].action
    }

    /// The arena indices of a node's children.
    pub fn node_children(&self, i: usize) -> (r: Vec<usize>)
        requires
            i < self.nodes@.len(),
        ensures
            r@ == self.nodes@[i as int].children@,
    {
        let src = &self.nodes[i].children;
        let mut r: Vec<usize> = Vec::new();
        let mut t: usize = 0;
        while t < src.len()
            invariant
                t <= src@.len(),
                r@ == src@.take(t as int),
            decreases src@.len() - t,
        {
            r.push(src[t]);
            proof {
                assert(r@ =~= src@.take(t + 1));
            }
            t = t + 1;
        }
        proof {
            assert(r@ =~= src@);
        }
        r
    }

    /// Whether a selection is awaiting its evaluation.
    pub fn has_pending(&self) -> (r: bool)
        ensures
            r == (self.pending is Some),
    {
        self.pending.is_some()
    }

    /// The child of `node_index` with the highest selection score, earliest
    /// first on ties, or `None` at a frontier.
    pub fn get_best_child(&self, node_index: usize) -> (r: Option<usize>)
        requires
            arena_links_wf(self.nodes@),
            self.config.wf(),
            node_index < self.nodes@.len(),
        ensures
            match r {
                None => self.nodes@[node_index as int].children@.len() == 0,
                Some(c) => exists|j: int|
                    Self::is_first_argmax(
                        self.nodes@,
                        self.nodes@[node_index as int].children@,
                        self.nodes@[node_index as int].visit_count as int,
                        self.config,
                        j,
                    ) && self.nodes@[node_index as int].children@[j] == c,
            },
    {
        let ghost ns = self.nodes@;
        let children = &self.nodes[node_index].children;
        let n = children.len();
        if n == 0 {
            return None;
        }
        let parent_visits = self.nodes[node_index].visit_count;
        let mut best_index: usize = children[0];
        let mut best_score: i128 = self.nodes[best_index].ucb(parent_visits, &self.config);
        let ghost best_j: int = 0;
        let mut t: usize = 1;
        while t < n
            invariant
                arena_links_wf(ns),
                self.config.wf(),
                ns == self.nodes@,
                node_index < ns.len(),
                children == &self.nodes@[node_index as int].children,
                n == children@.len(),
                parent_visits == ns[node_index as int].visit_count,
                1 <= t <= n,
                0 <= best_j < t,
                children@[best_j] == best_index,
                best_score == ns[best_index as int].ucb_spec(parent_visits as int, self.config),
                forall|s: int|
                    0 <= s < t ==> ns[(#[trigger] children@[s]) as int].ucb_spec(
                        parent_visits as int,
                        self.config,
                    ) <= best_score,
                forall|s: int|
                    0 <= s < best_j ==> ns[(#[trigger] children@[s]) as int].ucb_spec(
                        parent_visits as int,
                        self.config,
                    ) < best_score,
            decreases n - t,
        {
            let c = children[t];
            let score = self.nodes[c].ucb(parent_visits, &self.config);
            if score > best_score {
                best_score = score;
                best_index = c;
                proof {
                    best_j = t as int;
                }
            }
            t = t + 1;
        }
        proof {
            assert(Self::is_first_argmax(
                ns,
                ns[node_index as int].children@,
                parent_visits as int,
                self.config,
                best_j,
            ));
        }
        Some(best_index)
    }

    /// Walks the recorded path and integrates the evaluation into every node
    /// on it: each visit count increments by one and each accumulated value
    /// absorbs the canonical-perspective evaluation relative to that node's
    /// own player to move.
    fn backpropagate(&mut self, path: &Vec<usize>, value: i64)
        requires
            arena_links_wf(old(self).nodes@),
            arena_counts_wf_except(old(self).nodes@, path@.last() as int),
            path_wf(old(self).nodes@, path@),
            old(self).nodes@[path@.last() as int].children@.len() == 0 || (old(
                self,
            ).nodes@[path@.last() as int].visit_count == 0 && sum_child_visits(
                old(self).nodes@,
                old(self).nodes@[path@.last() as int].children@,
            ) == 0 && path@.len() >= 2),
            -(SCALE as int) <= value as int <= SCALE as int,
            old(self).nodes@[0].visit_count < VISIT_CAP,
        ensures
            arena_links_wf(final(self).nodes@),
            arena_counts_wf(final(self).nodes@),
            final(self).nodes@.len() == old(self).nodes@.len(),
            forall|i: int|
                0 <= i < final(self).nodes@.len() ==> {
                    let nw = #[trigger] final(self).nodes@[i];
                    let od = old(self).nodes@[i];
                    &&& nw.children == od.children
                    &&& nw.action == od.action
                    &&& nw.turn == od.turn
                    &&& nw.prior == od.prior
                    &&& nw.pos == od.pos
                    &&& nw.visit_count == od.visit_count + (if path@.contains(i as usize) {
                        1int
                    } else {
                        0int
                    })
                    &&& nw.total_value as int == od.total_value + (if path@.contains(i as usize) {
                        if od.turn == Player::Black {
                            value as int
                        } else {
                            -(value as int)
                        }
                    } else {
                        0int
                    })
                    &&& (!path@.contains(i as usize) ==> nw == od)
                },
            final(self).nodes@[0].visit_count == old(self).nodes@[0].visit_count + 1,
            final(self).board == old(self).board,
            final(self).config == old(self).config,
            final(self).pending == old(self).pending,
            final(self).n_iterations == old(self).n_iterations,
    {
        let arena_len = self.nodes.len();
        let ghost ons = old(self).nodes@;
        proof {
            assert(ons.len() <= usize::MAX);
            lemma_path_increasing(ons, path@);
            assert forall|t: int| 0 <= t < path@.len() implies ons[path@[t] as int].visit_count
                < VISIT_CAP by {
                lemma_path_visits_bounded(ons, path@, t);
            }
        }
        let mut t: usize = 0;
        while t < path.len()
            invariant
                path_wf(ons, path@),
                t <= path@.len(),
                self.nodes@.len() == ons.len(),
                ons.len() <= usize::MAX,
                forall|t1: int, t2: int| 0 <= t1 < t2 < path@.len() ==> path@[t1] < path@[t2],
                forall|s: int|
                    0 <= s < path@.len() ==> ons[(#[trigger] path@[s]) as int].visit_count
                        < VISIT_CAP,
                -(SCALE as int) <= value as int <= SCALE as int,
                forall|i: int|
                    0 <= i < ons.len() ==> {
                        let nw = #[trigger] self.nodes@[i];
                        let od = ons[i];
                        &&& nw.children == od.children
                        &&& nw.action == od.action
                        &&& nw.turn == od.turn
                        &&& nw.prior == od.prior
                        &&& nw.pos == od.pos
                        &&& nw.stats_wf()
                        &&& nw.visit_count == od.visit_count + (if in_prefix(path@, t as int, i) {
                            1int
                        } else {
                            0int
                        })
                        &&& nw.total_value as int == od.total_value + (if in_prefix(
                            path@,
                            t as int,
                            i,
                        ) {
                            if od.turn == Player::Black {
                                value as int
                            } else {
                                -(value as int)
                            }
                        } else {
                            0int
                        })
                        &&& (!in_prefix(path@, t as int, i) ==> nw == od)
                    },
                self.board == old(self).board,
                self.config == old(self).config,
                self.pending == old(self).pending,
                self.n_iterations == old(self).n_iterations,
            decreases path@.len() - t,
        {
            let x = path[t];
            proof {
                if in_prefix(path@, t as int, x as int) {
                    let s = choose|s: int| 0 <= s < t && path@[s] == x;
                    assert(path@[s] < path@[t as int]);
                    assert(false);
                }
            }
            let node = &mut self.nodes[x];
            node.update(value);
            proof {
                assert forall|i: int| 0 <= i < ons.len() implies in_prefix(path@, t + 1, i) == (
                in_prefix(path@, t as int, i) || i == x) by {
                    if in_prefix(path@, t + 1, i) {
                        let s = choose|s: int| 0 <= s < t + 1 && path@[s] == i;
                        if s == t {
                        } else {
                            assert(in_prefix(path@, t as int, i));
                        }
                    }
                    if i == x {
                        assert(path@[t as int] == i);
                        assert(in_prefix(path@, t + 1, i));
                    }
                    if in_prefix(path@, t as int, i) {
                        let s = choose|s: int| 0 <= s < t && path@[s] == i;
                        assert(in_prefix(path@, t + 1, i));
                    }
                }
            }
            t = t + 1;
        }
        proof {
            let ns2 = self.nodes@;
            assert forall|i: int| 0 <= i < ns2.len() implies in_prefix(
                path@,
                path@.len() as int,
                i,
            ) == path@.contains(i as usize) by {
                if in_prefix(path@, path@.len() as int, i) {
                    let s = choose|s: int| 0 <= s < path@.len() && path@[s] == i;
                    assert(path@[s] == i as usize);
                    assert(path@.contains(i as usize));
                }
                if path@.contains(i as usize) {
                    let s = choose|s: int| 0 <= s < path@.len() && path@[s] == i as usize;
                    assert(0 <= s < path@.len() as int && path@[s] == i);
                    assert(in_prefix(path@, path@.len() as int, i));
                }
            }
            assert(path@.contains(0usize)) by {
                assert(path@[0] == 0usize);
            }
            lemma_backprop_counts(ons, ns2, path@);
            assert(arena_links_wf(ns2)) by {
                assert forall|i1: int, j1: int, i2: int, j2: int|
                    #![trigger ns2[i1].children@[j1], ns2[i2].children@[j2]]
                    0 <= i1 < ns2.len() && 0 <= j1 < ns2[i1].children@.len() && 0 <= i2 < ns2.len()
                        && 0 <= j2 < ns2[i2].children@.len() && ns2[i1].children@[j1]
                        == ns2[i2].children@[j2] implies i1 == i2 && j1 == j2 by {
                    assert(ns2[i1].children == ons[i1].children);
                    assert(ns2[i2].children == ons[i2].children);
                    assert(ons[i1].children@[j1] == ons[i2].children@[j2]);
                }
            }
        }
    }
}

/// The canonical fixed-point value of a final outcome, from the fixed
/// canonical perspective: a Black win is `SCALE`, a White win `-SCALE`, a
/// draw zero.
pub open spec fn outcome_value_spec(o: Outcome) -> int {
    match o {
        Outcome::Winner(Player::Black) => SCALE as int,
        Outcome::Winner(Player::White) => -(SCALE as int),
        Outcome::Draw => 0,
    }
}

/// Converts a final outcome into its canonical fixed-point value.
pub fn outcome_value(outcome: &Outcome) -> (r: i64)
    ensures
        r == outcome_value_spec(*outcome),
        -(SCALE as int) <= r as int <= SCALE as int,
{
    match outcome {
        Outcome::Winner(Player::Black) => SCALE as i64,
        Outcome::Winner(Player::White) => -(SCALE as i64),
        Outcome::Draw => 0,
    }
}

/// Completes the game from the given position under the uniform-random
/// policy and reports the outcome.
pub fn rollout(board: &mut Board) -> (r: Outcome)
    requires
        old(board).wf(),
    ensures
        final(board).wf(),
        final(board).size == old(board).size,
        final(board).n_in_a_row == old(board).n_in_a_row,
        final(board).outcome == Some(r),
        old(board).outcome is Some ==> *final(board) == *old(board),
{
    loop
        invariant
            board.wf(),
            board.size == old(board).size,
            board.n_in_a_row == old(board).n_in_a_row,
            old(board).outcome is Some ==> *board == *old(board),
        decreases board.legal_elems().len(),
    {
        match board.outcome {
            Some(o) => {
                return o;
            },
            None => {},
        }
        let random_action = crate::utils::get_random_action(board.legal_actions());
        let ghost len0 = board.legal_elems().len();
        proof {
            crate::board::lemma_legal_actions_complement(*board);
            let i = choose|i: int|
                0 <= i < board.legal_elems().len() && board.legal_elems()[i] == random_action;
        }
        let res = board.make_action(random_action);
        proof {
            assert(res is Ok);
            assert(board.legal_elems().len() < len0);
        }
    }
}

impl MCTS {
    /// Creates one child of `frontier` per legal action of `scratch`, each
    /// tagged with the opposite player and the prior read from `priors` at
    /// the action's flat index.
    fn expand_node(&mut self, frontier: usize, scratch: &Board, priors: &Vec<u64>)
        requires
            arena_links_wf(old(self).nodes@),
            arena_counts_wf(old(self).nodes@),
            old(self).root_children_wf(),
            old(self).board.wf(),
            old(self).config.wf(),
            old(self).nodes@[0].turn == old(self).board.turn,
            old(self).pending is None,
            frontier < old(self).nodes@.len(),
            old(self).nodes@[frontier as int].children@.len() == 0,
            old(self).nodes@[frontier as int].visit_count == 0,
            arena_positions_wf(
                old(self).nodes@,
                old(self).board.size as int,
                old(self).board.n_in_a_row as int,
            ),
            scratch.wf(),
            scratch.outcome is None,
            scratch.size == old(self).board.size,
            scratch.n_in_a_row == old(self).board.n_in_a_row,
            scratch.turn == old(self).nodes@[frontier as int].turn,
            board_matches(*scratch, old(self).nodes@[frontier as int].pos@),
            frontier == 0 ==> scratch.legal_elems() == old(self).board.legal_elems(),
            priors@.len() == scratch.size * scratch.size,
            forall|t: int| 0 <= t < priors@.len() ==> (#[trigger] priors@[t]) <= SCALE,
        ensures
            arena_links_wf(final(self).nodes@),
            arena_counts_wf_except(final(self).nodes@, frontier as int),
            frontier == 0 ==> arena_counts_wf(final(self).nodes@),
            arena_positions_wf(
                final(self).nodes@,
                old(self).board.size as int,
                old(self).board.n_in_a_row as int,
            ),
            final(self).nodes@[frontier as int].pos == old(self).nodes@[frontier as int].pos,
            final(self).nodes@[frontier as int].prior == old(self).nodes@[frontier as int].prior,
            final(self).nodes@[frontier as int].total_value == old(self).nodes@[frontier as int].total_value,
            final(self).root_children_wf(),
            final(self).nodes@[0].turn == final(self).board.turn,
            final(self).board == old(self).board,
            final(self).config == old(self).config,
            final(self).n_iterations == old(self).n_iterations,
            final(self).pending is None,
            final(self).nodes@.len() == old(self).nodes@.len() + scratch.legal_elems().len(),
            forall|i: int|
                0 <= i < old(self).nodes@.len() && i != frontier ==> final(self).nodes@[i] == old(
                    self,
                ).nodes@[i],
            final(self).nodes@[frontier as int].children@.len() == scratch.legal_elems().len(),
            forall|j: int|
                0 <= j < scratch.legal_elems().len()
                    ==> (#[trigger] final(self).nodes@[frontier as int].children@[j]) == old(
                    self,
                ).nodes@.len() + j,
            final(self).nodes@[frontier as int].visit_count == 0,
            final(self).nodes@[frontier as int].action == old(self).nodes@[frontier as int].action,
            final(self).nodes@[frontier as int].turn == old(self).nodes@[frontier as int].turn,
            sum_child_visits(
                final(self).nodes@,
                final(self).nodes@[frontier as int].children@,
            ) == 0,
            forall|j: int|
                0 <= j < scratch.legal_elems().len()
                    ==> final(self).nodes@[(#[trigger] final(self).nodes@[frontier as int].children@[j]) as int].action
                    == Some(scratch.legal_elems()[j]),
            forall|j: int|
                0 <= j < scratch.legal_elems().len() ==> {
                    let child = final(self).nodes@[(#[trigger] final(self).nodes@[frontier as int].children@[j]) as int];
                    let a = scratch.legal_elems()[j];
                    &&& child.prior == priors@[a.0 * scratch.size + a.1]
                    &&& child.visit_count == 0
                    &&& child.total_value == 0
                    &&& child.children@.len() == 0
                },
    {
        let ghost ons = old(self).nodes@;
        let ghost size = old(self).board.size as int;
        let ghost k = old(self).board.n_in_a_row as int;
        let ghost pre = old(self).nodes@[frontier as int].pos@;
        let actions = crate::sets::action_set_to_vec(scratch.legal_actions());
        let frontier_turn = self.nodes[frontier].turn;
        let child_turn = frontier_turn.opposite();
        let base = self.nodes.len();
        let mut child_indices: Vec<usize> = Vec::new();
        let mut j: usize = 0;
        proof {
            assert(distinct_elems(pre.legal));
        }
        while j < actions.len()
            invariant
                scratch.wf(),
                actions@ == scratch.legal_elems(),
                priors@.len() == scratch.size * scratch.size,
                forall|t: int| 0 <= t < priors@.len() ==> (#[trigger] priors@[t]) <= SCALE,
                frontier < ons.len(),
                base == ons.len(),
                size == old(self).board.size as int,
                k == old(self).board.n_in_a_row as int,
                scratch.size == old(self).board.size,
                scratch.n_in_a_row == old(self).board.n_in_a_row,
                pre == ons[frontier as int].pos@,
                pre.legal == actions@,
                pre.turn == scratch.turn,
                pre.outcome is None,
                distinct_elems(pre.legal),
                child_turn == scratch.turn.opposite_spec(),
                j <= actions@.len(),
                self.nodes@.len() == ons.len() + j,
                forall|i: int| 0 <= i < ons.len() ==> #[trigger] self.nodes@[i] == ons[i],
                child_indices@.len() == j,
                forall|t: int| 0 <= t < j ==> (#[trigger] child_indices@[t]) == base + t,
                forall|t: int|
                    0 <= t < j ==> {
                        let nd = #[trigger] self.nodes@[base + t];
                        &&& nd.action == Some(actions@[t])
                        &&& nd.turn == child_turn
                        &&& nd.children@.len() == 0
                        &&& nd.visit_count == 0
                        &&& nd.total_value == 0
                        &&& nd.prior == priors@[actions@[t].0 * scratch.size + actions@[t].1]
                        &&& nd.stats_wf()
                        &&& position_after_action(pre, nd.pos@, actions@[t], size, k)
                        &&& distinct_elems(nd.pos@.legal)
                    },
                self.board == old(self).board,
                self.config == old(self).config,
                self.pending == old(self).pending,
                self.n_iterations == old(self).n_iterations,
            decreases actions@.len() - j,
        {
            let a = actions[j];
            proof {
                assert(scratch.legal_elems()[j as int].0 < scratch.size);
            }
            let flat = scratch.action_to_flat_index(&a);
            let prior = priors[flat];
            let mut node = Node::new(Some(a), child_turn, prior);
            // Record the position this child's action reaches, so that
            // selection can replay the path to it.
            let ghost side = size + 2 * (k - 1);
            let ghost target = (a.0 + k - 1) * side + (a.1 + k - 1);
            let ghost new_cells = pre.cells.update(target, SquareState::Occupied(pre.turn));
            let ghost new_stones = pre.stones + 1;
            let ghost new_outcome = if wins_through(
                new_cells,
                side,
                k,
                size,
                a.0 as int,
                a.1 as int,
                pre.turn,
            ) {
                Some(Outcome::Winner(pre.turn))
            } else if new_stones == size * size {
                Some(Outcome::Draw)
            } else {
                None
            };
            node.pos = Ghost(
                Position {
                    cells: new_cells,
                    legal: swap_removed(pre.legal, j as int),
                    turn: if new_outcome is None {
                        pre.turn.opposite_spec()
                    } else {
                        pre.turn
                    },
                    outcome: new_outcome,
                    stones: new_stones,
                },
            );
            proof {
                assert(pre.legal[j as int] == a);
                assert(position_after_action(pre, node.pos@, a, size, k));
                lemma_swap_removed_props(pre.legal, j as int);
            }
            let idx = self.nodes.len();
            child_indices.push(idx);
            self.nodes.push(node);
            j = j + 1;
        }
        let ghost mid = self.nodes@;
        self.nodes[frontier].children = child_indices;
        proof {
            let ns2 = self.nodes@;
            let m = actions@.len() as int;
            let newc = ns2[frontier as int].children@;
            assert(ns2 == mid.update(frontier as int, ns2[frontier as int]));
            assert(newc.len() == m);
            assert forall|i: int| 0 <= i < ons.len() && i != frontier implies ns2[i] == ons[i] by {}
            assert forall|t: int| 0 <= t < m implies (#[trigger] newc[t]) == base + t by {}
            assert forall|i: int| ons.len() <= i < ns2.len() implies ((#[trigger] ns2[i]).children@.len()
                == 0 && ns2[i].stats_wf() && ns2[i].action is Some && ns2[i].visit_count == 0) by {
                let t = i - base;
                assert(mid[base + t].children@.len() == 0);
                assert(mid[base + t].stats_wf());
                assert(mid[base + t].action == Some(actions@[t]));
                assert(mid[base + t].visit_count == 0);
                assert(ns2[i] == mid[i]);
            }
            assert(ns2[frontier as int].stats_wf());
            // Structural invariant of the extended arena.
            assert(arena_links_wf(ns2)) by {
                assert forall|i: int, j2: int|
                    0 <= i < ns2.len() && 0 <= j2 < ns2[i].children@.len() implies i < (
                #[trigger] ns2[i].children@[j2]) < ns2.len() by {
                    if i == frontier {
                    } else if i < ons.len() {
                        assert(ns2[i].children@[j2] == ons[i].children@[j2]);
                    } else {
                        assert(ns2[i].children@.len() == 0);
                    }
                }
                assert forall|i1: int, j1: int, i2: int, j2: int|
                    #![trigger ns2[i1].children@[j1], ns2[i2].children@[j2]]
                    0 <= i1 < ns2.len() && 0 <= j1 < ns2[i1].children@.len() && 0 <= i2 < ns2.len()
                        && 0 <= j2 < ns2[i2].children@.len() && ns2[i1].children@[j1]
                        == ns2[i2].children@[j2] implies i1 == i2 && j1 == j2 by {
                    if i1 == frontier && i2 == frontier {
                    } else if i1 == frontier {
                        assert(ns2[i1].children@[j1] >= base);
                        assert(ons[i2].children@[j2] < ons.len());
                        assert(false);
                    } else if i2 == frontier {
                        assert(ns2[i2].children@[j2] >= base);
                        assert(ons[i1].children@[j1] < ons.len());
                        assert(false);
                    } else if i1 < ons.len() && i2 < ons.len() {
                        assert(ons[i1].children@[j1] == ons[i2].children@[j2]);
                    }
                }
                assert forall|i: int, j2: int|
                    0 <= i < ns2.len() && 0 <= j2 < ns2[i].children@.len() implies ns2[(
                #[trigger] ns2[i].children@[j2]) as int].turn == ns2[i].turn.opposite_spec()
                    && ns2[ns2[i].children@[j2] as int].action is Some by {
                    if i == frontier {
                        assert(ns2[i].children@[j2] == base + j2);
                    } else if i < ons.len() {
                        assert(ns2[i].children@[j2] == ons[i].children@[j2]);
                        let c = ons[i].children@[j2] as int;
                        assert(ons[c].turn == ons[i].turn.opposite_spec());
                        if c == frontier {
                            assert(ns2[c].turn == ons[c].turn);
                            assert(ns2[c].action == ons[c].action);
                        }
                    } else {
                        assert(ns2[i].children@.len() == 0);
                    }
                }
            }
            // Bookkeeping: the fresh children sum to zero, other sums keep.
            assert forall|t: int| 0 <= t < newc.len() implies (#[trigger] newc[t]) < ns2.len()
                && ns2[newc[t] as int].visit_count == 0 by {
                assert(newc[t] == base + t);
            }
            lemma_sum_zero(ns2, newc);
            assert(arena_counts_wf_except(ns2, frontier as int)) by {
                assert forall|i: int|
                    0 <= i < ns2.len() && ns2[i].children@.len() > 0 && i
                        != frontier implies sum_child_visits(ns2, ns2[i].children@) + (if i == 0 {
                    0int
                } else {
                    1int
                }) == ns2[i].visit_count by {
                    if i < ons.len() {
                        let c = ons[i].children@;
                        assert(ns2[i].children@ == c);
                        assert forall|t: int| 0 <= t < c.len() implies (#[trigger] c[t]) < ons.len()
                            && c[t] < ns2.len() && (c[t] as int != -1 ==> ons[c[t]
                            as int].visit_count == ns2[c[t] as int].visit_count) by {
                            if c[t] as int == frontier {
                            }
                        }
                        lemma_sum_same_except(ons, ns2, c, -1);
                    } else {
                        assert(ns2[i].children@.len() == 0);
                    }
                }
            }
            if frontier == 0 {
                assert(sum_child_visits(ns2, newc) + 0 == ns2[0].visit_count);
            }
            // The root's children still carry distinct legal actions.
            if frontier == 0 {
                assert forall|j2: int| 0 <= j2 < newc.len() implies self.board.legal_elems(
                ).contains(ns2[(#[trigger] newc[j2]) as int].action.unwrap()) by {
                    assert(newc[j2] == base + j2);
                    assert(ns2[base + j2].action == Some(actions@[j2]));
                    assert(scratch.legal_elems()[j2] == actions@[j2]);
                    assert(scratch.legal_elems().contains(actions@[j2]));
                }
                assert forall|j1: int, j2: int|
                    #![trigger newc[j1], newc[j2]]
                    0 <= j1 < j2 < newc.len() implies ns2[newc[j1] as int].action != ns2[newc[j2]
                    as int].action by {
                    assert(newc[j1] == base + j1 && newc[j2] == base + j2);
                    assert(crate::sets::distinct_elems(actions@));
                    assert(actions@[j1] != actions@[j2]);
                }
                assert(self.root_children_wf());
            } else {
                assert(ns2[0] == ons[0]);
                assert forall|j2: int| 0 <= j2 < ns2[0].children@.len() implies self.board.legal_elems(
                ).contains(ns2[(#[trigger] ns2[0].children@[j2]) as int].action.unwrap()) by {
                    let c = ons[0].children@[j2] as int;
                    assert(ns2[0].children@[j2] == ons[0].children@[j2]);
                    assert(old(self).board.legal_elems().contains(ons[c].action.unwrap()));
                    if c == frontier {
                        assert(ns2[c].action == ons[c].action);
                    }
                }
                assert forall|j1: int, j2: int|
                    #![trigger ns2[0].children@[j1], ns2[0].children@[j2]]
                    0 <= j1 < j2 < ns2[0].children@.len() implies ns2[ns2[0].children@[j1]
                    as int].action != ns2[ns2[0].children@[j2] as int].action by {
                    let c1 = ons[0].children@[j1] as int;
                    let c2 = ons[0].children@[j2] as int;
                    assert(ons[c1].action != ons[c2].action);
                    assert(ns2[c1].action == ons[c1].action);
                    assert(ns2[c2].action == ons[c2].action);
                }
                assert(self.root_children_wf());
            }
            // The reachability invariant: untouched nodes keep it, the
            // frontier's fresh children enumerate its position's legal
            // actions, and every fresh child records its reached position.
            assert forall|i: int| 0 <= i < ns2.len() implies distinct_elems(
                (#[trigger] ns2[i]).pos@.legal,
            ) by {
                if i < ons.len() && i != frontier {
                    assert(ns2[i] == ons[i]);
                    assert(distinct_elems(ons[i].pos@.legal));
                } else if i == frontier {
                    assert(ns2[i].pos == ons[frontier as int].pos);
                } else {
                    let t = i - base;
                    assert(ns2[i] == mid[i]);
                    assert(distinct_elems(mid[base + t].pos@.legal));
                }
            }
            assert forall|i: int|
                0 <= i < ns2.len() && (#[trigger] ns2[i]).children@.len() > 0 implies {
                &&& ns2[i].pos@.outcome is None
                &&& ns2[i].children@.len() == ns2[i].pos@.legal.len()
                &&& forall|j2: int|
                    0 <= j2 < ns2[i].children@.len() ==> {
                        let child = ns2[(#[trigger] ns2[i].children@[j2]) as int];
                        &&& child.action == Some(ns2[i].pos@.legal[j2])
                        &&& position_after_action(
                            ns2[i].pos@,
                            child.pos@,
                            ns2[i].pos@.legal[j2],
                            size,
                            k,
                        )
                    }
            } by {
                if i == frontier {
                    assert(ns2[i].pos@ == pre);
                    assert forall|j2: int| 0 <= j2 < ns2[i].children@.len() implies {
                        let child = ns2[(#[trigger] ns2[i].children@[j2]) as int];
                        &&& child.action == Some(ns2[i].pos@.legal[j2])
                        &&& position_after_action(
                            ns2[i].pos@,
                            child.pos@,
                            ns2[i].pos@.legal[j2],
                            size,
                            k,
                        )
                    } by {
                        assert(newc[j2] == base + j2);
                        assert(ns2[base + j2] == mid[base + j2]);
                        assert(position_after_action(pre, mid[base + j2].pos@, actions@[j2], size, k));
                        assert(pre.legal[j2] == actions@[j2]);
                    }
                } else if i < ons.len() {
                    assert(ns2[i] == ons[i]);
                    assert(ons[i].children@.len() > 0);
                    assert forall|j2: int| 0 <= j2 < ns2[i].children@.len() implies {
                        let child = ns2[(#[trigger] ns2[i].children@[j2]) as int];
                        &&& child.action == Some(ns2[i].pos@.legal[j2])
                        &&& position_after_action(
                            ns2[i].pos@,
                            child.pos@,
                            ns2[i].pos@.legal[j2],
                            size,
                            k,
                        )
                    } by {
                        assert(ns2[i].children@[j2] == ons[i].children@[j2]);
                        let c = ons[i].children@[j2] as int;
                        assert(0 <= c < ons.len());
                        assert(ons[c].action == Some(ons[i].pos@.legal[j2]));
                        assert(position_after_action(
                            ons[i].pos@,
                            ons[c].pos@,
                            ons[i].pos@.legal[j2],
                            size,
                            k,
                        ));
                        if c == frontier {
                            assert(ns2[c].action == ons[c].action);
                            assert(ns2[c].pos == ons[c].pos);
                        } else {
                            assert(ns2[c] == ons[c]);
                        }
                    }
                } else {
                    assert(ns2[i].children@.len() == 0);
                }
            }
            assert forall|i: int|
                0 <= i < ns2.len() && (#[trigger] ns2[i]).children@.len() == 0 && ns2[i].visit_count
                    > 0 implies ns2[i].pos@.outcome is Some by {
                if i < ons.len() && i != frontier {
                    assert(ns2[i] == ons[i]);
                } else if i == frontier {
                    assert(ns2[i].visit_count == 0);
                } else {
                    assert(ns2[i].visit_count == 0);
                }
            }
            assert forall|i: int|
                0 <= i < ns2.len() && (#[trigger] ns2[i]).pos@.outcome is None implies ns2[i].turn
                == ns2[i].pos@.turn by {
                if i < ons.len() && i != frontier {
                    assert(ns2[i] == ons[i]);
                } else if i == frontier {
                    assert(ns2[i].pos == ons[frontier as int].pos);
                    assert(ns2[i].turn == ons[frontier as int].turn);
                } else {
                    // A live fresh child moves with the opposite player of
                    // the live frontier position.
                    let t = i - base;
                    assert(ns2[i] == mid[i]);
                    assert(position_after_action(pre, mid[base + t].pos@, actions@[t], size, k));
                    assert(mid[base + t].turn == child_turn);
                    assert(pre.turn == scratch.turn);
                }
            }
            assert(arena_positions_wf(ns2, size, k));
        }
    }
}

impl MCTS {
    /// Descends from the root, at each node moving to the child with the
    /// highest selection score, replaying each chosen action on `scratch`,
    /// until a frontier (childless) node is reached. Returns the walked
    /// path, or `None` if the descent meets a position it cannot replay
    /// (a finished game or an occupied square below an expanded node, which
    /// no reachable search state produces).
    /// Descends from the root, at each node moving to the child with the
    /// highest selection score, replaying each chosen action on `scratch`,
    /// until a frontier (childless) node is reached. The positions recorded
    /// in the arena guarantee that every replay succeeds: the scratch board
    /// always matches the current node's position, so it is live wherever
    /// children exist and every chosen action is legal on it.
    fn select_to_frontier(&self, scratch: &mut Board) -> (r: Vec<usize>)
        requires
            self.wf(),
            old(scratch).wf(),
            old(scratch).size == self.board.size,
            old(scratch).n_in_a_row == self.board.n_in_a_row,
            board_matches(*old(scratch), self.nodes@[0].pos@),
            self.nodes@[0].children@.len() > 0,
        ensures
            final(scratch).wf(),
            final(scratch).size == self.board.size,
            final(scratch).n_in_a_row == self.board.n_in_a_row,
            path_wf(self.nodes@, r@),
            r@.len() >= 2,
            self.nodes@[r@.last() as int].children@.len() == 0,
            board_matches(*final(scratch), self.nodes@[r@.last() as int].pos@),
    {
        let ghost size = self.board.size as int;
        let ghost k = self.board.n_in_a_row as int;
        let mut path: Vec<usize> = Vec::new();
        path.push(0);
        let mut current: usize = 0;
        loop
            invariant
                self.wf(),
                scratch.wf(),
                scratch.size == self.board.size,
                scratch.n_in_a_row == self.board.n_in_a_row,
                size == self.board.size as int,
                k == self.board.n_in_a_row as int,
                self.nodes@[0].children@.len() > 0,
                current < self.nodes@.len(),
                path@.len() >= 1,
                path@.last() == current,
                path_wf(self.nodes@, path@),
                board_matches(*scratch, self.nodes@[current as int].pos@),
                path@.len() >= 2 || current == 0,
            decreases self.nodes@.len() - current,
        {
            let ghost ns = self.nodes@;
            let ghost cur_pos = ns[current as int].pos@;
            if self.nodes[current].children.len() == 0 {
                proof {
                    // The root has children, so a childless node is deeper.
                    assert(current != 0);
                }
                return path;
            }
            // The node is expanded, so its recorded position — and with it
            // the scratch board — is live.
            proof {
                assert(cur_pos.outcome is None);
                assert(scratch.outcome is None);
            }
            let best = self.get_best_child(current);
            let c = best.unwrap();
            let ghost jc: int;
            proof {
                jc = choose|j: int|
                    Self::is_first_argmax(
                        ns,
                        ns[current as int].children@,
                        ns[current as int].visit_count as int,
                        self.config,
                        j,
                    ) && ns[current as int].children@[j] == c;
                assert(ns[current as int].children@[jc] == c);
            }
            let action = self.nodes[c].action.unwrap();
            proof {
                // The chosen action is the jc-th legal action of the
                // replayed position, hence in range and on a vacant square.
                assert(ns[c as int].action == Some(cur_pos.legal[jc]));
                assert(action == cur_pos.legal[jc]);
                assert(scratch.legal_elems()[jc] == action);
                assert(scratch.legal_elems()[jc].0 < scratch.size);
                crate::board::lemma_flat_index_bound(
                    action.0 + scratch.pad(),
                    action.1 + scratch.pad(),
                    scratch.side(),
                );
                assert(cell_at(
                    scratch.cells(),
                    scratch.side(),
                    action.0 + scratch.pad(),
                    action.1 + scratch.pad(),
                ) == SquareState::Vacant);
            }
            let ghost pre_board: Board = *scratch;
            let res = scratch.make_action(action);
            proof {
                assert(res is Ok);
                // The new scratch state matches the child's recorded
                // position, component by component.
                let post = ns[c as int].pos@;
                assert(position_after_action(cur_pos, post, action, size, k));
                assert(pre_board.action_cell(action.0 as int, action.1 as int) == (action.0 + k - 1)
                    * (size + 2 * (k - 1)) + (action.1 + k - 1));
                assert(scratch.cells() == post.cells);
                assert(scratch.num_stones_placed == post.stones);
                assert(scratch.outcome == post.outcome);
                assert(scratch.turn == post.turn);
                let i1 = choose|i: int|
                    0 <= i < pre_board.legal_elems().len() && pre_board.legal_elems()[i] == action
                        && scratch.legal_elems() == swap_removed(pre_board.legal_elems(), i);
                let i2 = choose|i: int|
                    0 <= i < cur_pos.legal.len() && cur_pos.legal[i] == action && post.legal
                        == swap_removed(cur_pos.legal, i);
                assert(distinct_elems(cur_pos.legal));
                assert(i1 == i2);
                assert(scratch.legal_elems() == post.legal);
                assert(board_matches(*scratch, post));
            }
            path.push(c);
            proof {
                assert(path@.last() == c);
                assert forall|t: int| 0 <= t < path@.len() - 1 implies self.nodes@[(
                #[trigger] path@[t]) as int].children@.contains(path@[t + 1]) by {
                    if t < path@.len() - 2 {
                        assert(path@[t] == path@.drop_last()[t]);
                        assert(path@[t + 1] == path@.drop_last()[t + 1]);
                    }
                }
            }
            current = c;
        }
    }

    /// Runs one search iteration with rollout evaluation: selection to a
    /// frontier on a scratch copy of the board, expansion of a first-visited
    /// non-terminal frontier, a uniform-random rollout (or the recorded
    /// outcome at a terminal frontier), and backpropagation. Exactly the
    /// nodes on the selected path gain the visit and absorb the evaluation;
    /// in particular the root's visit count always grows by one.
    #[verifier::rlimit(60)]
    pub fn iteration(&mut self)
        requires
            old(self).wf(),
            old(self).pending is None,
            old(self).nodes@[0].children@.len() > 0,
            old(self).nodes@[0].visit_count < VISIT_CAP,
        ensures
            final(self).wf(),
            final(self).pending is None,
            final(self).board == old(self).board,
            final(self).config == old(self).config,
            final(self).n_iterations == old(self).n_iterations,
            final(self).nodes@[0].children == old(self).nodes@[0].children,
            final(self).nodes@[0].visit_count == old(self).nodes@[0].visit_count + 1,
            final(self).nodes@[0].turn == old(self).nodes@[0].turn,
            exists|path: Seq<usize>, v: int|
                iteration_frame(old(self).nodes@, final(self).nodes@, path, v),
    {
        let ghost size = self.board.size as int;
        let ghost k = self.board.n_in_a_row as int;
        let mut scratch = self.board.clone();
        let path = self.select_to_frontier(&mut scratch);
        let frontier = path[path.len() - 1];
        proof {
            assert(path@.last() == path@[path@.len() - 1]);
            lemma_path_increasing(self.nodes@, path@);
            assert(path@[0] < path@[path@.len() - 1]);
        }
        let ghost pre_ns = self.nodes@;
        let value: i64;
        if scratch.is_game_over() {
            let o = scratch.outcome.unwrap();
            value = outcome_value(&o);
            proof {
                // The frontier's recorded position is this finished one.
                assert(self.nodes@[frontier as int].pos@.outcome is Some);
            }
        } else {
            proof {
                // A live, childless node has never been visited, so this is
                // its first visit and it is expanded now.
                assert(self.nodes@[frontier as int].pos@.outcome is None);
                assert(self.nodes@[frontier as int].visit_count == 0);
            }
            let mut uniform: Vec<u64> = Vec::new();
            proof {
                assert(scratch.size * scratch.size <= 676) by (nonlinear_arith)
                    requires
                        scratch.size <= 26,
                ;
            }
            let target = scratch.size * scratch.size;
            while uniform.len() < target
                invariant
                    uniform@.len() <= target,
                    forall|t: int| 0 <= t < uniform@.len() ==> (#[trigger] uniform@[t]) == SCALE,
                decreases target - uniform@.len(),
            {
                uniform.push(SCALE);
            }
            self.expand_node(frontier, &scratch, &uniform);
            let outcome = rollout(&mut scratch);
            value = outcome_value(&outcome);
        }
        let ghost mid_ns = self.nodes@;
        // Reading the length as a usize bounds the ghost sequence's length.
        let arena_len = self.nodes.len();
        proof {
            assert(mid_ns.len() <= usize::MAX);
        }
        self.backpropagate(&path, value);
        proof {
            lemma_iteration_end(pre_ns, mid_ns, self.nodes@, path@, frontier as int, value as int, size, k);
            assert(board_matches(self.board, self.nodes@[0].pos@)) by {
                assert(self.nodes@[0].pos == pre_ns[0].pos);
            }
            assert(iteration_frame(old(self).nodes@, self.nodes@, path@, value as int));
        }
    }

    /// Whether the `j`-th child has the maximal visit count and strictly
    /// exceeds every earlier child's: the deterministic final-selection rule.
    pub open spec fn is_first_visit_argmax(ns: Seq<Node>, children: Seq<usize>, j: int) -> bool {
        &&& 0 <= j < children.len()
        &&& forall|t: int|
            0 <= t < children.len() ==> ns[(#[trigger] children[t]) as int].visit_count
                <= ns[children[j] as int].visit_count
        &&& forall|t: int|
            0 <= t < j ==> ns[(#[trigger] children[t]) as int].visit_count < ns[children[j]
                as int].visit_count
    }

    /// The final selection over the root's children: in deterministic mode
    /// the child with the highest visit count (the earliest on ties), in
    /// exploratory mode a child sampled with probability proportional to its
    /// visit count (falling back to the deterministic rule before any
    /// iteration has run). The returned action is always a member of the
    /// board's legal actions.
    pub fn recommend_action(&self, exploratory_play: bool) -> (r: Action)
        requires
            self.wf(),
            self.nodes@[0].children@.len() > 0,
        ensures
            self.board.legal_elems().contains(r),
            !exploratory_play ==> exists|j: int|
                Self::is_first_visit_argmax(self.nodes@, self.nodes@[0].children@, j) && r
                    == self.nodes@[(#[trigger] self.nodes@[0].children@[j]) as int].action.unwrap(),
            exploratory_play ==> exists|j: int|
                0 <= j < self.nodes@[0].children@.len() && r == self.nodes@[(
                #[trigger] self.nodes@[0].children@[j]) as int].action.unwrap() && ((exists|t: int|
                    0 <= t < self.nodes@[0].children@.len() && self.nodes@[(
                    #[trigger] self.nodes@[0].children@[t]) as int].visit_count > 0)
                    ==> self.nodes@[self.nodes@[0].children@[j] as int].visit_count > 0),
    {
        let ghost ns = self.nodes@;
        let children = &self.nodes[0].children;
        let n = children.len();
        if exploratory_play {
            let mut weights: Vec<u64> = Vec::new();
            let mut j: usize = 0;
            let mut any_positive = false;
            while j < n
                invariant
                    self.wf(),
                    ns == self.nodes@,
                    children == &self.nodes@[0].children,
                    n == children@.len(),
                    j <= n,
                    weights@.len() == j,
                    forall|t: int|
                        0 <= t < j ==> (#[trigger] weights@[t]) == ns[children@[t]
                            as int].visit_count,
                    any_positive == exists|t: int| 0 <= t < j && weights@[t] > 0,
                decreases n - j,
            {
                let c = children[j];
                let w = self.nodes[c].visit_count;
                let ghost had_positive = any_positive;
                let ghost wv0 = weights@;
                if w > 0 {
                    any_positive = true;
                }
                weights.push(w);
                proof {
                    if had_positive {
                        let t = choose|t: int| 0 <= t < j && wv0[t] > 0;
                        assert(weights@[t] == wv0[t]);
                        assert(weights@[t] > 0);
                    }
                    if w > 0 {
                        assert(weights@[j as int] > 0);
                    }
                    if !had_positive && w == 0 {
                        assert forall|t: int| 0 <= t < j + 1 implies !(weights@[t] > 0) by {
                            if t < j {
                                assert(weights@[t] == wv0[t]);
                            } else {
                                assert(weights@[t] == w);
                            }
                        }
                    }
                }
                j = j + 1;
            }
            if any_positive {
                proof {
                    lemma_weights_sum(ns, children@, weights@);
                    assert(sum_child_visits(ns, ns[0].children@) + 0 == ns[0].visit_count);
                }
                let chosen = crate::utils::sample_from_weights(&weights);
                let c = children[chosen];
                let a = self.nodes[c].action.unwrap();
                proof {
                    assert(self.board.legal_elems().contains(ns[children@[chosen as int]
                        as int].action.unwrap()));
                }
                return a;
            }
        }
        // Deterministic: the most-visited child, earliest on ties.
        let mut best: usize = children[0];
        let mut best_visits: u64 = self.nodes[best].visit_count;
        let ghost mut best_j: int = 0;
        let mut j: usize = 1;
        while j < n
            invariant
                self.wf(),
                ns == self.nodes@,
                children == &self.nodes@[0].children,
                n == children@.len(),
                n > 0,
                1 <= j <= n,
                0 <= best_j < j,
                children@[best_j] == best,
                ns[best as int].visit_count == best_visits,
                forall|t: int|
                    0 <= t < j ==> ns[(#[trigger] children@[t]) as int].visit_count <= best_visits,
                forall|t: int|
                    0 <= t < best_j ==> ns[(#[trigger] children@[t]) as int].visit_count
                        < best_visits,
            decreases n - j,
        {
            let c = children[j];
            let w = self.nodes[c].visit_count;
            if w > best_visits {
                best = c;
                best_visits = w;
                proof {
                    best_j = j as int;
                }
            }
            j = j + 1;
        }
        let a = self.nodes[best].action.unwrap();
        proof {
            assert(Self::is_first_visit_argmax(ns, ns[0].children@, best_j));
            assert(self.board.legal_elems().contains(ns[ns[0].children@[best_j]
                as int].action.unwrap()));
        }
        a
    }

    /// Computes the best action for the board's position: the root is
    /// expanded eagerly if needed (rollout-driven search tags every child
    /// with a unit prior), the iteration budget is spent on
    /// rollout-evaluated iterations, and the final selection is
    /// deterministic or exploratory as requested.
    pub fn get_best_action(&mut self, exploratory_play: bool) -> (r: Action)
        requires
            old(self).wf(),
            old(self).pending is None,
            old(self).board.outcome is None,
            old(self).nodes@[0].children@.len() > 0 || old(self).nodes@[0].visit_count == 0,
            old(self).nodes@[0].visit_count + old(self).n_iterations < VISIT_CAP,
        ensures
            final(self).wf(),
            old(self).board.legal_elems().contains(r),
            final(self).board == old(self).board,
            final(self).n_iterations == old(self).n_iterations,
            final(self).nodes@[0].children@.len() > 0,
            final(self).nodes@[0].visit_count == old(self).nodes@[0].visit_count
                + old(self).n_iterations,
            !exploratory_play ==> exists|j: int|
                Self::is_first_visit_argmax(final(self).nodes@, final(self).nodes@[0].children@, j)
                    && r == final(self).nodes@[(#[trigger] final(self).nodes@[0].children@[j]) as int].action.unwrap(),
            exploratory_play ==> exists|j: int|
                0 <= j < final(self).nodes@[0].children@.len() && r == final(self).nodes@[(
                #[trigger] final(self).nodes@[0].children@[j]) as int].action.unwrap() && ((exists|
                    t: int,
                |
                    0 <= t < final(self).nodes@[0].children@.len() && final(self).nodes@[(
                    #[trigger] final(self).nodes@[0].children@[t]) as int].visit_count > 0)
                    ==> final(self).nodes@[final(self).nodes@[0].children@[j] as int].visit_count
                    > 0),
    {
        if self.nodes[0].children.len() == 0 {
            let scratch = self.board.clone();
            let mut uniform: Vec<u64> = Vec::new();
            proof {
                assert(scratch.size * scratch.size <= 676) by (nonlinear_arith)
                    requires
                        scratch.size <= 26,
                ;
            }
            let target = scratch.size * scratch.size;
            while uniform.len() < target
                invariant
                    uniform@.len() <= target,
                    forall|t: int| 0 <= t < uniform@.len() ==> (#[trigger] uniform@[t]) == SCALE,
                decreases target - uniform@.len(),
            {
                uniform.push(SCALE);
            }
            self.expand_node(0, &scratch, &uniform);
            proof {
                assert(self.board.legal_elems().len() > 0);
            }
        }
        let budget = self.n_iterations;
        let mut i: u64 = 0;
        while i < budget
            invariant
                self.wf(),
                self.pending is None,
                self.board == old(self).board,
                self.n_iterations == old(self).n_iterations,
                budget == old(self).n_iterations,
                self.nodes@[0].children@.len() > 0,
                i <= budget,
                self.nodes@[0].visit_count == old(self).nodes@[0].visit_count + i,
                old(self).nodes@[0].visit_count + budget < VISIT_CAP,
            decreases budget - i,
        {
            self.iteration();
            i = i + 1;
        }
        self.recommend_action(exploratory_play)
    }
}

impl MCTS {
    /// Expands the root eagerly, before the iteration loop, one child per
    /// legal action with the prior read from `priors` at the action's flat
    /// index — so that exploration noise can be injected into root priors
    /// before search proper begins.
    pub fn expand_root_with_priors(&mut self, priors: &Vec<u64>)
        requires
            old(self).wf(),
            old(self).pending is None,
            old(self).board.outcome is None,
            old(self).nodes@[0].children@.len() == 0,
            old(self).nodes@[0].visit_count == 0,
            priors@.len() == old(self).board.size * old(self).board.size,
            forall|t: int| 0 <= t < priors@.len() ==> (#[trigger] priors@[t]) <= SCALE,
        ensures
            final(self).wf(),
            final(self).pending is None,
            final(self).board == old(self).board,
            final(self).config == old(self).config,
            final(self).n_iterations == old(self).n_iterations,
            final(self).nodes@[0].children@.len() == old(self).board.legal_elems().len(),
            final(self).nodes@[0].children@.len() > 0,
            final(self).nodes@[0].visit_count == 0,
            forall|j: int|
                0 <= j < final(self).nodes@[0].children@.len()
                    ==> final(self).nodes@[(#[trigger] final(self).nodes@[0].children@[j]) as int].action
                    == Some(old(self).board.legal_elems()[j]),
            forall|j: int|
                0 <= j < final(self).nodes@[0].children@.len() ==> {
                    let child = final(self).nodes@[(#[trigger] final(self).nodes@[0].children@[j]) as int];
                    let a = old(self).board.legal_elems()[j];
                    &&& child.prior == priors@[a.0 * old(self).board.size + a.1]
                    &&& child.visit_count == 0
                    &&& child.total_value == 0
                },
    {
        let scratch = self.board.clone();
        self.expand_node(0, &scratch, priors);
        proof {
            assert(self.board.legal_elems().len() > 0);
        }
    }

    /// Runs the selection phase of one oracle-driven iteration. At a
    /// terminal frontier the recorded outcome is backpropagated at once and
    /// `None` is returned; otherwise the frontier's position is stored,
    /// awaiting `complete_iteration`, and its feature encoding (the
    /// flattened planes of `to_flat_vec`) is returned for the oracle.
    /// Credits a terminal frontier's recorded outcome to every node on the
    /// walked path: the evaluation-free half of an oracle-driven iteration.
    fn backpropagate_terminal(&mut self, path: &Vec<usize>, scratch: &Board)
        requires
            old(self).wf(),
            old(self).pending is None,
            scratch.wf(),
            scratch.outcome is Some,
            path_wf(old(self).nodes@, path@),
            path@.len() >= 2,
            old(self).nodes@[path@.last() as int].children@.len() == 0,
            board_matches(*scratch, old(self).nodes@[path@.last() as int].pos@),
            old(self).nodes@[0].visit_count < VISIT_CAP,
        ensures
            final(self).wf(),
            final(self).pending is None,
            final(self).board == old(self).board,
            final(self).config == old(self).config,
            final(self).n_iterations == old(self).n_iterations,
            final(self).nodes@[0].children == old(self).nodes@[0].children,
            final(self).nodes@[0].visit_count == old(self).nodes@[0].visit_count + 1,
    {
        let ghost size = self.board.size as int;
        let ghost k = self.board.n_in_a_row as int;
        let ghost pre_ns = self.nodes@;
        let frontier = path[path.len() - 1];
        // Reading the length as a usize bounds the ghost sequence's length.
        let arena_len = self.nodes.len();
        proof {
            assert(path@.last() == path@[path@.len() - 1]);
            lemma_path_increasing(self.nodes@, path@);
            assert(path@[0] < path@[path@.len() - 1]);
            assert(self.nodes@[frontier as int].pos@.outcome is Some);
            assert(pre_ns.len() <= usize::MAX);
        }
        let o = scratch.outcome.unwrap();
        let value = outcome_value(&o);
        self.backpropagate(path, value);
        proof {
            lemma_iteration_end(
                pre_ns,
                pre_ns,
                self.nodes@,
                path@,
                frontier as int,
                value as int,
                size,
                k,
            );
            assert(board_matches(self.board, self.nodes@[0].pos@)) by {
                assert(self.nodes@[0].pos == pre_ns[0].pos);
            }
        }
    }

    pub fn begin_iteration(&mut self) -> (r: Option<Vec<u8>>)
        requires
            old(self).wf(),
            old(self).pending is None,
            old(self).nodes@[0].children@.len() > 0,
            old(self).nodes@[0].visit_count < VISIT_CAP,
        ensures
            final(self).wf(),
            final(self).board == old(self).board,
            final(self).config == old(self).config,
            final(self).n_iterations == old(self).n_iterations,
            final(self).nodes@[0].children@.len() > 0,
            r is Some ==> final(self).pending is Some && final(self).nodes@ == old(self).nodes@,
            r matches Some(enc) ==> {
                let scratch = final(self).pending.unwrap().scratch;
                &&& enc@.len() == 3 * (scratch.size * scratch.size)
                &&& forall|p: int, i: int, j: int|
                    0 <= p < 3 && 0 <= i < scratch.size && 0 <= j < scratch.size
                        ==> enc@[#[trigger] crate::board::flat_slot(p, i, j, scratch.size as int)]
                        == crate::board::encoding_plane_value(scratch, p, i, j)
            },
            r is None ==> final(self).pending is None && final(self).nodes@[0].visit_count == old(
                self,
            ).nodes@[0].visit_count + 1,
    {
        let ghost size = self.board.size as int;
        let ghost k = self.board.n_in_a_row as int;
        let mut scratch = self.board.clone();
        let path = self.select_to_frontier(&mut scratch);
        let frontier = path[path.len() - 1];
        proof {
            assert(path@.last() == path@[path@.len() - 1]);
            lemma_path_increasing(self.nodes@, path@);
            assert(path@[0] < path@[path@.len() - 1]);
        }
        if scratch.is_game_over() {
            // A terminal frontier needs no oracle: its recorded outcome is
            // backpropagated at once.
            self.backpropagate_terminal(&path, &scratch);
            return None;
        }
        proof {
            // A live, childless frontier has never been visited.
            assert(self.nodes@[frontier as int].pos@.outcome is None);
            assert(self.nodes@[frontier as int].visit_count == 0);
        }
        let enc = scratch.to_flat_vec();
        self.pending = Some(PendingEvaluation { path, scratch });
        Some(enc)
    }

    /// Completes an oracle-driven iteration: expands the stored frontier
    /// with one child per legal action, tagged with the oracle's priors, and
    /// backpropagates the oracle's canonical-perspective value along the
    /// stored path.
    #[verifier::rlimit(100)]
    pub fn complete_iteration(&mut self, priors: &Vec<u64>, value: i64)
        requires
            old(self).wf(),
            old(self).pending is Some,
            priors@.len() == old(self).board.size * old(self).board.size,
            forall|t: int| 0 <= t < priors@.len() ==> (#[trigger] priors@[t]) <= SCALE,
            -(SCALE as int) <= value as int <= SCALE as int,
            old(self).nodes@[0].visit_count < VISIT_CAP,
        ensures
            final(self).wf(),
            final(self).pending is None,
            final(self).board == old(self).board,
            final(self).config == old(self).config,
            final(self).n_iterations == old(self).n_iterations,
            final(self).nodes@[0].visit_count == old(self).nodes@[0].visit_count + 1,
    {
        let ghost size = self.board.size as int;
        let ghost k = self.board.n_in_a_row as int;
        let ghost pre_ns = old(self).nodes@;
        let taken = self.pending.take();
        let pending = taken.unwrap();
        let frontier = pending.path[pending.path.len() - 1];
        proof {
            assert(pending.path@.last() == pending.path@[pending.path@.len() - 1]);
            lemma_path_increasing(self.nodes@, pending.path@);
            assert(pending.path@[0] < pending.path@[pending.path@.len() - 1]);
            assert(self.nodes@[frontier as int].turn == pending.scratch.turn) by {
                assert(self.nodes@[frontier as int].pos@.outcome is None);
            }
        }
        self.expand_node(frontier, &pending.scratch, priors);
        let ghost mid_ns = self.nodes@;
        // Reading the length as a usize bounds the ghost sequence's length.
        let arena_len = self.nodes.len();
        proof {
            assert(mid_ns.len() <= usize::MAX);
            assert(mid_ns[frontier as int].children@.len() > 0);
        }
        self.backpropagate(&pending.path, value);
        proof {
            lemma_iteration_end(
                pre_ns,
                mid_ns,
                self.nodes@,
                pending.path@,
                frontier as int,
                value as int,
                size,
                k,
            );
            assert(board_matches(self.board, self.nodes@[0].pos@)) by {
                assert(self.nodes@[0].pos == pre_ns[0].pos);
            }
        }
    }
}

/// One root prior after noise injection: the old prior and the noise sample
/// mixed as `((SCALE - eps) * prior + eps * noise) / SCALE`, rounded down.
pub open spec fn noise_mixed(prior: int, noise: int, eps: int) -> int {
    ((SCALE - eps) * prior + eps * noise) / (SCALE as int)
}

/// The sum of a sequence of integers.
pub open spec fn seq_sum_int(s: Seq<int>) -> int
    decreases s.len(),
{
    if s.len() == 0 {
        0
    } else {
        seq_sum_int(s.drop_last()) + s.last()
    }
}

/// The root priors after noise injection, element-wise.
pub open spec fn mixed_prior_seq(priors: Seq<u64>, noise: Seq<u64>, eps: int) -> Seq<int> {
    Seq::new(priors.len(), |j: int| noise_mixed(priors[j] as int, noise[j] as int, eps))
}

/// The mixed numerators sum to the mix of the sums, and rounding each
/// element down loses less than one `SCALE` unit per element.
proof fn lemma_mixed_sum_bounds(priors: Seq<u64>, noise: Seq<u64>, eps: int)
    requires
        priors.len() == noise.len(),
        priors.len() >= 1,
        0 <= eps <= SCALE,
    ensures
        (SCALE as int) * seq_sum_int(mixed_prior_seq(priors, noise, eps)) <= (SCALE - eps)
            * seq_sum_u64(priors) + eps * seq_sum_u64(noise),
        (SCALE - eps) * seq_sum_u64(priors) + eps * seq_sum_u64(noise) < (SCALE as int)
            * seq_sum_int(mixed_prior_seq(priors, noise, eps)) + priors.len() * SCALE,
    decreases priors.len(),
{
    let mixed = mixed_prior_seq(priors, noise, eps);
    {
        let p = priors.last() as int;
        let n = noise.last() as int;
        let m = (SCALE - eps) * p + eps * n;
        assert(m == (SCALE - eps) * p + eps * n);
        assert(m >= 0) by (nonlinear_arith)
            requires
                m == (SCALE - eps) * p + eps * n,
                0 <= eps <= SCALE as int,
                p >= 0,
                n >= 0,
        ;
        if priors.len() >= 2 {
            lemma_mixed_sum_bounds(priors.drop_last(), noise.drop_last(), eps);
        } else {
            assert(priors.drop_last().len() == 0);
            assert(seq_sum_u64(priors.drop_last()) == 0);
            assert(seq_sum_u64(noise.drop_last()) == 0);
            assert(seq_sum_int(mixed_prior_seq(priors.drop_last(), noise.drop_last(), eps)) == 0);
            assert((SCALE - eps) * 0int + eps * 0int == 0) by (nonlinear_arith);
        }
        assert(mixed_prior_seq(priors.drop_last(), noise.drop_last(), eps) =~= mixed.drop_last());
        assert(mixed.last() == m / (SCALE as int));
        assert((SCALE as int) * (m / (SCALE as int)) <= m && m < (SCALE as int) * (m / (
        SCALE as int)) + SCALE) by (nonlinear_arith)
            requires
                m >= 0,
                SCALE == 10000u64,
        ;
        let sp = seq_sum_u64(priors.drop_last());
        let sn = seq_sum_u64(noise.drop_last());
        let fp = seq_sum_int(mixed.drop_last());
        assert(seq_sum_u64(priors) == sp + p);
        assert(seq_sum_u64(noise) == sn + n);
        assert(seq_sum_int(mixed) == fp + mixed.last());
        assert((SCALE - eps) * (sp + p) == (SCALE - eps) * sp + (SCALE - eps) * p)
            by (nonlinear_arith);
        assert(eps * (sn + n) == eps * sn + eps * n) by (nonlinear_arith);
        assert((SCALE as int) * (fp + mixed.last()) == (SCALE as int) * fp + (SCALE as int)
            * mixed.last()) by (nonlinear_arith);
        assert((priors.len() as int) * SCALE == (priors.len() - 1) * SCALE + SCALE)
            by (nonlinear_arith);
        assert((priors.drop_last().len() as int) * SCALE == (priors.len() - 1) * SCALE);
    }
}

/// When the root priors sum to one before noise injection, they still sum
/// to one after it, up to the rounding lost below one `SCALE` unit spread
/// over the children: with at least two children, both sums in `SCALE`
/// units, the mixed priors sum into `(SCALE - children, SCALE]`.
pub proof fn lemma_noise_preserves_prior_mass(priors: Seq<u64>, noise: Seq<u64>, eps: int)
    requires
        priors.len() == noise.len(),
        priors.len() >= 2,
        0 <= eps <= SCALE,
        seq_sum_u64(priors) == SCALE,
        seq_sum_u64(noise) == SCALE,
    ensures
        (SCALE as int) - priors.len() < seq_sum_int(mixed_prior_seq(priors, noise, eps)),
        seq_sum_int(mixed_prior_seq(priors, noise, eps)) <= SCALE,
{
    lemma_mixed_sum_bounds(priors, noise, eps);
    let f = seq_sum_int(mixed_prior_seq(priors, noise, eps));
    let len = priors.len() as int;
    assert((SCALE - eps) * (SCALE as int) + eps * (SCALE as int) == (SCALE as int) * (
    SCALE as int)) by (nonlinear_arith);
    assert((SCALE as int) * f <= (SCALE as int) * (SCALE as int) ==> f <= SCALE)
        by (nonlinear_arith);
    assert((SCALE as int) * (SCALE as int) < (SCALE as int) * f + len * SCALE ==> (SCALE as int)
        < f + len) by (nonlinear_arith);
}

impl MCTS {
    /// Replaces each root child's prior by
    /// `((SCALE - epsilon) * prior + epsilon * noise) / SCALE`, where the
    /// noise samples come from the caller (drawn once, outside, from a
    /// Dirichlet distribution sized to the number of root children) and
    /// `epsilon` is the configured noise weight. Skipped when fewer than two
    /// root children exist.
    pub fn inject_exploration_noise(&mut self, noise: &Vec<u64>)
        requires
            old(self).wf(),
            old(self).nodes@[0].children@.len() >= 2 ==> noise@.len() == old(
                self,
            ).nodes@[0].children@.len(),
            forall|t: int| 0 <= t < noise@.len() ==> (#[trigger] noise@[t]) <= SCALE,
        ensures
            final(self).wf(),
            final(self).board == old(self).board,
            final(self).config == old(self).config,
            final(self).n_iterations == old(self).n_iterations,
            final(self).pending == old(self).pending,
            old(self).nodes@[0].children@.len() < 2 ==> final(self).nodes@ == old(self).nodes@,
            old(self).nodes@[0].children@.len() >= 2 ==> {
                let ns = old(self).nodes@;
                let ns2 = final(self).nodes@;
                let children = ns[0].children@;
                &&& ns2.len() == ns.len()
                &&& forall|j: int|
                    0 <= j < children.len() ==> ns2[(#[trigger] children[j]) as int].prior
                        == noise_mixed(
                        ns[children[j] as int].prior as int,
                        noise@[j] as int,
                        old(self).config.epsilon_fp as int,
                    )
                &&& forall|i: int|
                    0 <= i < ns2.len() ==> (#[trigger] ns2[i]).visit_count == ns[i].visit_count
                        && ns2[i].total_value == ns[i].total_value && ns2[i].children
                        == ns[i].children && ns2[i].action == ns[i].action && ns2[i].turn
                        == ns[i].turn
            },
    {
        let ghost ons = self.nodes@;
        let n = self.nodes[0].children.len();
        if n < 2 {
            return ;
        }
        let eps = self.config.epsilon_fp;
        let mut j: usize = 0;
        while j < n
            invariant
                arena_links_wf(ons),
                ons[0].children@.len() == n,
                noise@.len() == n,
                forall|t: int| 0 <= t < noise@.len() ==> (#[trigger] noise@[t]) <= SCALE,
                eps <= SCALE,
                j <= n,
                self.nodes@.len() == ons.len(),
                self.board == old(self).board,
                self.config == old(self).config,
                self.pending == old(self).pending,
                self.n_iterations == old(self).n_iterations,
                eps == self.config.epsilon_fp,
                forall|t: int|
                    0 <= t < j ==> self.nodes@[(#[trigger] ons[0].children@[t]) as int].prior
                        == noise_mixed(
                        ons[ons[0].children@[t] as int].prior as int,
                        noise@[t] as int,
                        eps as int,
                    ) && self.nodes@[ons[0].children@[t] as int].prior <= SCALE,
                forall|i: int|
                    0 <= i < ons.len() ==> {
                        let nw = #[trigger] self.nodes@[i];
                        let od = ons[i];
                        &&& nw.visit_count == od.visit_count
                        &&& nw.total_value == od.total_value
                        &&& nw.children == od.children
                        &&& nw.action == od.action
                        &&& nw.turn == od.turn
                        &&& nw.pos == od.pos
                        &&& nw.prior <= SCALE
                        &&& (!(exists|t: int| 0 <= t < j && ons[0].children@[t] == i) ==> nw.prior
                            == od.prior)
                    },
            decreases n - j,
        {
            let c = self.nodes[0].children[j];
            let old_prior = self.nodes[c].prior;
            let sample = noise[j];
            proof {
                assert((SCALE - eps) * old_prior + eps * sample <= 200_000_000u64)
                    by (nonlinear_arith)
                    requires
                        eps <= SCALE,
                        old_prior <= SCALE,
                        sample <= SCALE,
                        SCALE == 10000u64,
                ;
                assert(((SCALE - eps) * old_prior + eps * sample) as int / (SCALE as int)
                    <= SCALE) by (nonlinear_arith)
                    requires
                        eps <= SCALE,
                        old_prior <= SCALE,
                        sample <= SCALE,
                        SCALE == 10000u64,
                ;
            }
            let mixed = ((SCALE - eps) * old_prior + eps * sample) / SCALE;
            let node = &mut self.nodes[c];
            node.prior = mixed;
            proof {
                assert forall|t: int|
                    0 <= t < j + 1 implies self.nodes@[(#[trigger] ons[0].children@[t])
                    as int].prior == noise_mixed(
                    ons[ons[0].children@[t] as int].prior as int,
                    noise@[t] as int,
                    eps as int,
                ) && self.nodes@[ons[0].children@[t] as int].prior <= SCALE by {
                    if t < j {
                        assert(ons[0].children@[t] != ons[0].children@[j as int]);
                    } else {
                        assert(!(exists|s: int| 0 <= s < j && ons[0].children@[s] == c));
                    }
                }
                assert forall|i: int|
                    0 <= i < ons.len() && !(exists|t: int|
                        0 <= t < j + 1 && ons[0].children@[t] == i) implies #[trigger] self.nodes@[i].prior
                    == ons[i].prior by {}
            }
            j = j + 1;
        }
        proof {
            let ns2 = self.nodes@;
            assert(arena_links_wf(ns2)) by {
                assert forall|i1: int, j1: int, i2: int, j2: int|
                    #![trigger ns2[i1].children@[j1], ns2[i2].children@[j2]]
                    0 <= i1 < ns2.len() && 0 <= j1 < ns2[i1].children@.len() && 0 <= i2 < ns2.len()
                        && 0 <= j2 < ns2[i2].children@.len() && ns2[i1].children@[j1]
                        == ns2[i2].children@[j2] implies i1 == i2 && j1 == j2 by {
                    assert(ns2[i1].children == ons[i1].children);
                    assert(ns2[i2].children == ons[i2].children);
                    assert(ons[i1].children@[j1] == ons[i2].children@[j2]);
                }
            }
            assert(arena_counts_wf(ns2)) by {
                assert forall|i: int|
                    0 <= i < ns2.len() && ns2[i].children@.len() > 0 implies sum_child_visits(
                    ns2,
                    ns2[i].children@,
                ) + (if i == 0 {
                    0int
                } else {
                    1int
                }) == ns2[i].visit_count by {
                    let c = ons[i].children@;
                    assert(ns2[i].children@ == c);
                    assert forall|t: int| 0 <= t < c.len() implies (#[trigger] c[t]) < ons.len()
                        && c[t] < ns2.len() && (c[t] as int != -1 ==> ons[c[t]
                        as int].visit_count == ns2[c[t] as int].visit_count) by {}
                    lemma_sum_same_except(ons, ns2, c, -1);
                }
            }
            assert forall|i: int|
                0 <= i < ns2.len() implies (#[trigger] ns2[i]).children == ons[i].children
                && ns2[i].action == ons[i].action && ns2[i].turn == ons[i].turn && ns2[i].pos
                == ons[i].pos by {}
            lemma_positions_wf_transfer(
                ons,
                ns2,
                self.board.size as int,
                self.board.n_in_a_row as int,
            );
            assert(board_matches(self.board, ns2[0].pos@)) by {
                assert(ns2[0].pos == ons[0].pos);
            }
            match &self.pending {
                None => {},
                Some(p) => {
                    assert(path_wf(ns2, p.path@)) by {
                        assert forall|t: int|
                            0 <= t < p.path@.len() - 1 implies ns2[(#[trigger] p.path@[t])
                            as int].children@.contains(p.path@[t + 1]) by {
                            assert(ns2[p.path@[t] as int].children == ons[p.path@[t]
                                as int].children);
                        }
                    }
                    assert(board_matches(p.scratch, ns2[p.path@.last() as int].pos@)) by {
                        assert(ns2[p.path@.last() as int].pos == ons[p.path@.last() as int].pos);
                    }
                },
            }
        }
    }

    /// The visit-derived policy over the flattened action space: entry
    /// `row * size + col` holds `visits * SCALE / n_iterations` for the root
    /// child of that action, and zero where the root has no child.
    pub fn get_flat_policy(&self) -> (r: Vec<u64>)
        requires
            self.wf(),
            self.n_iterations >= 1,
        ensures
            r@.len() == self.board.size * self.board.size,
            forall|j: int|
                0 <= j < self.nodes@[0].children@.len() ==> {
                    let child = self.nodes@[(#[trigger] self.nodes@[0].children@[j]) as int];
                    r@[child.action.unwrap().0 * self.board.size + child.action.unwrap().1]
                        == child.visit_count * SCALE / (self.n_iterations as int)
                },
            forall|f: int|
                0 <= f < r@.len() && !(exists|j: int|
                    0 <= j < self.nodes@[0].children@.len() && f == self.nodes@[(
                    #[trigger] self.nodes@[0].children@[j]) as int].action.unwrap().0
                        * self.board.size + self.nodes@[self.nodes@[0].children@[j]
                        as int].action.unwrap().1) ==> r@[f] == 0,
    {
        let ghost ns = self.nodes@;
        let size = self.board.size;
        proof {
            assert(size * size <= 676) by (nonlinear_arith)
                requires
                    size <= 26,
            ;
        }
        let target = size * size;
        let mut r: Vec<u64> = Vec::new();
        while r.len() < target
            invariant
                r@.len() <= target,
                forall|t: int| 0 <= t < r@.len() ==> (#[trigger] r@[t]) == 0,
            decreases target - r@.len(),
        {
            r.push(0);
        }
        let children = &self.nodes[0].children;
        let n = children.len();
        let mut j: usize = 0;
        while j < n
            invariant
                self.wf(),
                ns == self.nodes@,
                self.n_iterations >= 1,
                children == &self.nodes@[0].children,
                n == children@.len(),
                size == self.board.size,
                target == size * size,
                j <= n,
                r@.len() == target,
                forall|t: int|
                    0 <= t < j ==> {
                        let child = ns[(#[trigger] children@[t]) as int];
                        r@[child.action.unwrap().0 * size + child.action.unwrap().1]
                            == child.visit_count * SCALE / (self.n_iterations as int)
                    },
                forall|f: int|
                    0 <= f < r@.len() && !(exists|t: int|
                        0 <= t < j && f == ns[(#[trigger] children@[t]) as int].action.unwrap().0
                            * size + ns[children@[t] as int].action.unwrap().1) ==> r@[f] == 0,
            decreases n - j,
        {
            let c = children[j];
            let action = self.nodes[c].action.unwrap();
            proof {
                assert(self.board.legal_elems().contains(ns[children@[j as int]
                    as int].action.unwrap()));
                let t = choose|t: int|
                    0 <= t < self.board.legal_elems().len() && self.board.legal_elems()[t]
                        == action;
                assert(self.board.legal_elems()[t].0 < self.board.size);
                lemma_flat_policy_index(action.0 as int, action.1 as int, size as int);
                assert(ns[c as int].visit_count * SCALE <= VISIT_CAP * SCALE) by (nonlinear_arith)
                    requires
                        ns[c as int].visit_count <= VISIT_CAP,
                        SCALE == 10000u64,
                ;
            }
            let flat = action.0 * size + action.1;
            let visits = self.nodes[c].visit_count;
            let p = visits * SCALE / self.n_iterations;
            let slot = &mut r[flat];
            *slot = p;
            proof {
                let ghost rv = r@;
                assert forall|t: int| 0 <= t < j + 1 implies {
                    let child = ns[(#[trigger] children@[t]) as int];
                    rv[child.action.unwrap().0 * size + child.action.unwrap().1]
                        == child.visit_count * SCALE / (self.n_iterations as int)
                } by {
                    if t < j {
                        let child = ns[children@[t] as int];
                        let cj = ns[children@[j as int] as int];
                        assert(child.action != cj.action);
                        let a1 = child.action.unwrap();
                        assert(self.board.legal_elems().contains(a1));
                        let tt = choose|tt: int|
                            0 <= tt < self.board.legal_elems().len()
                                && self.board.legal_elems()[tt] == a1;
                        assert(self.board.legal_elems()[tt].0 < self.board.size);
                        lemma_flat_policy_index(a1.0 as int, a1.1 as int, size as int);
                        lemma_flat_policy_distinct(
                            a1.0 as int,
                            a1.1 as int,
                            action.0 as int,
                            action.1 as int,
                            size as int,
                        );
                    }
                }
            }
            j = j + 1;
        }
        r
    }

    /// The visit-derived policy as a `size` x `size` matrix: the nested form
    /// of `get_flat_policy`.
    pub fn get_policy(&self) -> (r: Vec<Vec<u64>>)
        requires
            self.wf(),
            self.n_iterations >= 1,
        ensures
            r@.len() == self.board.size,
            forall|i: int| 0 <= i < r@.len() ==> (#[trigger] r@[i])@.len() == self.board.size,
            forall|j: int|
                0 <= j < self.nodes@[0].children@.len() ==> {
                    let child = self.nodes@[(#[trigger] self.nodes@[0].children@[j]) as int];
                    r@[child.action.unwrap().0 as int]@[child.action.unwrap().1 as int]
                        == child.visit_count * SCALE / (self.n_iterations as int)
                },
            forall|row: int, col: int|
                0 <= row < self.board.size && 0 <= col < self.board.size && !(exists|j: int|
                    0 <= j < self.nodes@[0].children@.len() && self.nodes@[(
                    #[trigger] self.nodes@[0].children@[j]) as int].action == Some(
                        ((row as usize, col as usize)),
                    )) ==> r@[row]@[col] == 0,
    {
        let ghost ns = self.nodes@;
        let flat = self.get_flat_policy();
        let size = self.board.size;
        let mut r: Vec<Vec<u64>> = Vec::new();
        let mut i: usize = 0;
        while i < size
            invariant
                size == self.board.size,
                self.board.config_wf(),
                flat@.len() == size * size,
                i <= size,
                r@.len() == i,
                forall|t: int| 0 <= t < i ==> (#[trigger] r@[t])@.len() == size,
                forall|t: int, c: int|
                    0 <= t < i && 0 <= c < size ==> #[trigger] r@[t]@[c] == flat@[t * size + c],
            decreases size - i,
        {
            let mut line: Vec<u64> = Vec::new();
            let mut c: usize = 0;
            while c < size
                invariant
                    size == self.board.size,
                    self.board.config_wf(),
                    flat@.len() == size * size,
                    i < size,
                    c <= size,
                    line@.len() == c,
                    forall|t: int| 0 <= t < c ==> #[trigger] line@[t] == flat@[i * size + t],
                decreases size - c,
            {
                proof {
                    lemma_flat_policy_index(i as int, c as int, size as int);
                    assert(size * size <= 676) by (nonlinear_arith)
                        requires
                            size <= 26,
                    ;
                }
                line.push(flat[i * size + c]);
                c = c + 1;
            }
            r.push(line);
            i = i + 1;
        }
        proof {
            assert forall|j: int| 0 <= j < ns[0].children@.len() implies {
                let child = ns[(#[trigger] ns[0].children@[j]) as int];
                r@[child.action.unwrap().0 as int]@[child.action.unwrap().1 as int]
                    == child.visit_count * SCALE / (self.n_iterations as int)
            } by {
                let child = ns[ns[0].children@[j] as int];
                let a = child.action.unwrap();
                assert(self.board.legal_elems().contains(a));
                let tt = choose|tt: int|
                    0 <= tt < self.board.legal_elems().len() && self.board.legal_elems()[tt] == a;
                assert(self.board.legal_elems()[tt].0 < self.board.size);
                assert(r@[a.0 as int]@[a.1 as int] == flat@[a.0 * size + a.1]);
            }
            assert forall|row: int, col: int|
                0 <= row < self.board.size && 0 <= col < self.board.size && !(exists|j: int|
                    0 <= j < ns[0].children@.len() && ns[(#[trigger] ns[0].children@[j])
                        as int].action == Some(((row as usize, col as usize)))) implies r@[row]@[col]
                == 0 by {
                lemma_flat_policy_index(row, col, size as int);
                assert(r@[row]@[col] == flat@[row * size + col]);
                if exists|t: int|
                    0 <= t < ns[0].children@.len() && row * size + col == ns[(
                    #[trigger] ns[0].children@[t]) as int].action.unwrap().0 * self.board.size
                        + ns[ns[0].children@[t] as int].action.unwrap().1 {
                    let t = choose|t: int|
                        0 <= t < ns[0].children@.len() && row * size + col == ns[(
                        #[trigger] ns[0].children@[t]) as int].action.unwrap().0 * self.board.size
                            + ns[ns[0].children@[t] as int].action.unwrap().1;
                    let a = ns[ns[0].children@[t] as int].action.unwrap();
                    assert(self.board.legal_elems().contains(a));
                    let tt = choose|tt: int|
                        0 <= tt < self.board.legal_elems().len() && self.board.legal_elems()[tt]
                            == a;
                    assert(self.board.legal_elems()[tt].0 < self.board.size);
                    if !(a.0 == row && a.1 == col) {
                        lemma_flat_policy_distinct(
                            a.0 as int,
                            a.1 as int,
                            row,
                            col,
                            size as int,
                        );
                        assert(false);
                    }
                    assert(ns[ns[0].children@[t] as int].action == Some(
                        ((row as usize, col as usize)),
                    ));
                    assert(false);
                }
            }
        }
        r
    }
}

/// A policy slot index is in range.
proof fn lemma_flat_policy_index(r: int, c: int, size: int)
    requires
        0 <= r < size,
        0 <= c < size,
    ensures
        0 <= r * size + c < size * size,
{
    assert(0 <= r * size + c < size * size) by (nonlinear_arith)
        requires
            0 <= r < size,
            0 <= c < size,
    ;
}

/// Distinct actions occupy distinct policy slots.
proof fn lemma_flat_policy_distinct(r1: int, c1: int, r2: int, c2: int, size: int)
    requires
        0 <= r1 < size,
        0 <= c1 < size,
        0 <= r2 < size,
        0 <= c2 < size,
        !(r1 == r2 && c1 == c2),
    ensures
        r1 * size + c1 != r2 * size + c2,
{
    assert(r1 * size + c1 != r2 * size + c2) by (nonlinear_arith)
        requires
            0 <= r1 < size,
            0 <= c1 < size,
            0 <= r2 < size,
            0 <= c2 < size,
            !(r1 == r2 && c1 == c2),
    ;
}

/// The visit-count bookkeeping of the search tree:
/// at any point where the engine's invariant holds — in particular
/// immediately after an evaluation completes, between `begin_iteration` and
/// `complete_iteration`, before its backpropagation — the sum of a parent's
/// direct children's visit counts equals the parent's own count, less one
/// for every non-root parent: a non-root node is visited once as a frontier
/// before its expansion, while the root is expanded eagerly before its
/// first visit.
pub proof fn lemma_visit_count_bookkeeping(m: MCTS, i: int)
    requires
        m.wf(),
        0 <= i < m.nodes@.len(),
        m.nodes@[i].children@.len() > 0,
    ensures
        sum_child_visits(m.nodes@, m.nodes@[i].children@) + (if i == 0 {
            0int
        } else {
            1int
        }) == m.nodes@[i].visit_count,
{
}

/// A weight vector built from child visit counts sums to the same total as
/// the bookkeeping sum over those children.
proof fn lemma_weights_sum(ns: Seq<Node>, children: Seq<usize>, weights: Seq<u64>)
    requires
        weights.len() == children.len(),
        forall|t: int|
            0 <= t < children.len() ==> (#[trigger] children[t]) < ns.len() && weights[t]
                == ns[children[t] as int].visit_count,
    ensures
        crate::utils::seq_sum_u64(weights) == sum_child_visits(ns, children),
    decreases children.len(),
{
    if children.len() > 0 {
        assert forall|t: int| 0 <= t < children.drop_last().len() implies (
        #[trigger] children.drop_last()[t]) < ns.len() && weights.drop_last()[t]
            == ns[children.drop_last()[t] as int].visit_count by {
            assert(children.drop_last()[t] == children[t]);
            assert(weights.drop_last()[t] == weights[t]);
        }
        lemma_weights_sum(ns, children.drop_last(), weights.drop_last());
        assert(weights.last() == ns[children.last() as int].visit_count);
    }
}

/// After every node on a root-to-frontier path is credited with one visit,
/// the visit-count bookkeeping holds everywhere again.
proof fn lemma_backprop_counts(ns1: Seq<Node>, ns2: Seq<Node>, path: Seq<usize>)
    requires
        ns1.len() <= usize::MAX,
        arena_links_wf(ns1),
        arena_counts_wf_except(ns1, path.last() as int),
        path_wf(ns1, path),
        ns1[path.last() as int].children@.len() == 0 || (ns1[path.last() as int].visit_count == 0
            && sum_child_visits(ns1, ns1[path.last() as int].children@) == 0 && path.len() >= 2),
        ns2.len() == ns1.len(),
        forall|i: int|
            0 <= i < ns2.len() ==> {
                let nw = #[trigger] ns2[i];
                let od = ns1[i];
                &&& nw.children == od.children
                &&& nw.visit_count == od.visit_count + (if path.contains(i as usize) {
                    1int
                } else {
                    0int
                })
            },
    ensures
        arena_counts_wf(ns2),
{
    lemma_path_increasing(ns1, path);
    assert forall|i: int|
        0 <= i < ns2.len() && ns2[i].children@.len() > 0 implies sum_child_visits(
        ns2,
        ns2[i].children@,
    ) + (if i == 0 {
        0int
    } else {
        1int
    }) == ns2[i].visit_count by {
        let c = ns2[i].children@;
        assert(c == ns1[i].children@);
        if path.contains(i as usize) {
            assert((i as usize) as int == i);
            let t = choose|t: int| 0 <= t < path.len() && #[trigger] path[t] == i as usize;
            assert(path[t] as int == i);
            if t == path.len() - 1 {
                // The frontier: freshly expanded with unvisited children,
                // none of which can lie on the path.
                assert(path.last() == i as usize);
                assert(ns1[i].children@.len() > 0);
                assert(ns1[i].visit_count == 0 && sum_child_visits(ns1, c) == 0);
                lemma_sum_path_disjoint(ns1, ns2, path, i);
            } else {
                // An interior node: exactly its path successor is bumped.
                assert(ns1[path[t] as int].children@.contains(path[t + 1]));

                lemma_sum_bump_on_path(ns1, ns2, path, i, t);
            }
        } else {
            // Off the path no child is bumped: a bumped child would have a
            // path predecessor, which parent uniqueness makes equal to `i`.
            lemma_sum_off_path(ns1, ns2, path, i);
        }
    }
}

/// The children of the path's last node are all beyond it, hence off the
/// path, so their sum is unchanged.
proof fn lemma_sum_path_disjoint(ns1: Seq<Node>, ns2: Seq<Node>, path: Seq<usize>, i: int)
    requires
        ns1.len() <= usize::MAX,
        arena_links_wf(ns1),
        path_wf(ns1, path),
        0 <= i < ns1.len(),
        path.last() == i as usize,
        ns2.len() == ns1.len(),
        forall|t: int|
            0 <= t < ns2.len() ==> (#[trigger] ns2[t]).children == ns1[t].children
                && ns2[t].visit_count == ns1[t].visit_count + (if path.contains(t as usize) {
                1int
            } else {
                0int
            }),
    ensures
        sum_child_visits(ns2, ns1[i].children@) == sum_child_visits(ns1, ns1[i].children@),
{
    lemma_path_increasing(ns1, path);
    let c = ns1[i].children@;
    assert forall|j: int| 0 <= j < c.len() implies (#[trigger] c[j]) < ns1.len() && c[j]
        < ns2.len() && (c[j] as int != -1 ==> ns1[c[j] as int].visit_count == ns2[c[j]
        as int].visit_count) by {
        if path.contains(c[j]) {
            let s = choose|s: int| 0 <= s < path.len() && path[s] == c[j];
            if s < path.len() - 1 {
                assert(path[s] < path[path.len() - 1]);
            }
            assert(path[s] == i as usize || path[s] > i as usize);
            assert(i < c[j]);
            assert(false);
        }
    }
    lemma_sum_same_except(ns1, ns2, c, -1);
}

/// On the path, exactly the successor child of an interior node is bumped.
proof fn lemma_sum_bump_on_path(ns1: Seq<Node>, ns2: Seq<Node>, path: Seq<usize>, i: int, t: int)
    requires
        ns1.len() <= usize::MAX,
        arena_links_wf(ns1),
        path_wf(ns1, path),
        0 <= i < ns1.len(),
        0 <= t < path.len() - 1,
        path[t] == i as usize,
        ns2.len() == ns1.len(),
        forall|s: int|
            0 <= s < ns2.len() ==> (#[trigger] ns2[s]).children == ns1[s].children
                && ns2[s].visit_count == ns1[s].visit_count + (if path.contains(s as usize) {
                1int
            } else {
                0int
            }),
    ensures
        sum_child_visits(ns2, ns1[i].children@) == sum_child_visits(ns1, ns1[i].children@) + 1,
{
    lemma_path_increasing(ns1, path);
    let c = ns1[i].children@;
    let nxt = path[t + 1];
    assert(ns1[path[t] as int].children@.contains(path[t + 1]));
    assert(c.contains(nxt));
    assert(path.contains(nxt)) by {
        assert(path[t + 1] == nxt);
    }
    assert(distinct_usizes(c)) by {
        assert forall|j1: int, j2: int| 0 <= j1 < j2 < c.len() implies c[j1] != c[j2] by {
            if c[j1] == c[j2] {
                assert(ns1[i].children@[j1] == ns1[i].children@[j2]);
            }
        }
    }
    assert forall|j: int| 0 <= j < c.len() implies (#[trigger] c[j]) < ns1.len() && c[j]
        < ns2.len() && (c[j] != nxt ==> ns1[c[j] as int].visit_count == ns2[c[j]
        as int].visit_count) by {
        if c[j] != nxt && path.contains(c[j]) {
            // A bumped child of `i` other than the successor would occur on
            // the path with a predecessor that, by parent uniqueness, is
            // `i` itself at position `t`, making it the successor after all.
            let s = choose|s: int| 0 <= s < path.len() && path[s] == c[j];
            assert(s >= 1) by {
                if s == 0 {
                    assert(path[0] == 0usize);
                    assert(i < c[j]);
                }
            }
            assert(ns1[path[s - 1] as int].children@.contains(path[s]));
            let cp = ns1[path[s - 1] as int].children@;
            let jp = choose|jp: int| 0 <= jp < cp.len() && #[trigger] cp[jp] == path[s];
            assert(ns1[path[s - 1] as int].children@[jp] == ns1[i].children@[j]);
            assert(path[s - 1] as int == i && jp == j);
            // Distinct path positions map to distinct indices, so s-1 == t.
            if s - 1 != t {
                assert(path[s - 1] != path[t] || s - 1 == t);
                assert(false);
            }
            assert(path[s] == path[t + 1]);
            assert(false);
        }
    }
    assert(ns2[nxt as int].visit_count == ns1[nxt as int].visit_count + 1);
    lemma_sum_bump(ns1, ns2, c, nxt);
}

/// Off the path no child is bumped, so sums there are unchanged.
proof fn lemma_sum_off_path(ns1: Seq<Node>, ns2: Seq<Node>, path: Seq<usize>, i: int)
    requires
        ns1.len() <= usize::MAX,
        arena_links_wf(ns1),
        path_wf(ns1, path),
        0 <= i < ns1.len(),
        !path.contains(i as usize),
        ns2.len() == ns1.len(),
        forall|s: int|
            0 <= s < ns2.len() ==> (#[trigger] ns2[s]).children == ns1[s].children
                && ns2[s].visit_count == ns1[s].visit_count + (if path.contains(s as usize) {
                1int
            } else {
                0int
            }),
    ensures
        sum_child_visits(ns2, ns1[i].children@) == sum_child_visits(ns1, ns1[i].children@),
{
    let c = ns1[i].children@;
    assert forall|j: int| 0 <= j < c.len() implies (#[trigger] c[j]) < ns1.len() && c[j]
        < ns2.len() && (c[j] as int != -1 ==> ns1[c[j] as int].visit_count == ns2[c[j]
        as int].visit_count) by {
        if path.contains(c[j]) {
            let s = choose|s: int| 0 <= s < path.len() && path[s] == c[j];
            assert(s >= 1) by {
                if s == 0 {
                    assert(path[0] == 0usize);
                    assert(i < c[j]);
                }
            }
            assert(ns1[path[s - 1] as int].children@.contains(path[s]));
            let cp = ns1[path[s - 1] as int].children@;
            let jp = choose|jp: int| 0 <= jp < cp.len() && #[trigger] cp[jp] == path[s];
            assert(ns1[path[s - 1] as int].children@[jp] == ns1[i].children@[j]);
            assert(path[s - 1] as int == i);
            assert(path.contains(i as usize)) by {
                assert(path[s - 1] == i as usize);
            }
            assert(false);
        }
    }
    lemma_sum_same_except(ns1, ns2, c, -1);
}

/// What one search iteration does to the arena: every node keeps its
/// action, player, prior and recorded position; exactly the nodes on one
/// root-to-frontier walk gain a visit and absorb one evaluation `v` (given
/// from the canonical perspective, accumulated relative to each node's own
/// player); only the frontier's child list changes; and any appended nodes
/// are the frontier's fresh, unvisited children.
pub open spec fn iteration_frame(ns0: Seq<Node>, ns1: Seq<Node>, path: Seq<usize>, v: int) -> bool {
    &&& path_wf(ns1, path)
    &&& path.len() >= 2
    &&& path.last() < ns0.len()
    &&& ns1.len() >= ns0.len()
    &&& -(SCALE as int) <= v <= SCALE as int
    &&& forall|i: int|
        0 <= i < ns0.len() ==> {
            let a = #[trigger] ns0[i];
            let b = ns1[i];
            &&& b.action == a.action
            &&& b.turn == a.turn
            &&& b.prior == a.prior
            &&& b.pos == a.pos
            &&& b.visit_count == a.visit_count + (if path.contains(i as usize) {
                1int
            } else {
                0int
            })
            &&& b.total_value as int == a.total_value + (if path.contains(i as usize) {
                if a.turn == Player::Black {
                    v
                } else {
                    -v
                }
            } else {
                0int
            })
            &&& (i != path.last() ==> b.children == a.children)
            &&& (!path.contains(i as usize) ==> b == a)
        }
    &&& forall|i: int|
        ns0.len() <= i < ns1.len() ==> {
            let b = #[trigger] ns1[i];
            &&& b.visit_count == 0
            &&& b.total_value == 0
            &&& b.children@.len() == 0
            &&& ns1[path.last() as int].children@.contains(i as usize)
        }
}

/// Composes what expansion and backpropagation each guarantee into the
/// iteration frame and the restored reachability invariant.
proof fn lemma_iteration_end(
    pre: Seq<Node>,
    mid: Seq<Node>,
    fin: Seq<Node>,
    path: Seq<usize>,
    frontier: int,
    v: int,
    size: int,
    k: int,
)
    requires
        arena_links_wf(pre),
        arena_links_wf(mid),
        arena_positions_wf(mid, size, k),
        path_wf(pre, path),
        path.len() >= 2,
        frontier == path.last(),
        0 < frontier < pre.len(),
        pre[frontier].children@.len() == 0,
        -(SCALE as int) <= v <= SCALE as int,
        mid.len() == pre.len() + mid[frontier as int].children@.len(),
        mid.len() <= usize::MAX,
        forall|i: int| 0 <= i < pre.len() && i != frontier ==> #[trigger] mid[i] == pre[i],
        mid[frontier].action == pre[frontier].action,
        mid[frontier].turn == pre[frontier].turn,
        mid[frontier].prior == pre[frontier].prior,
        mid[frontier].total_value == pre[frontier].total_value,
        mid[frontier].visit_count == pre[frontier].visit_count,
        mid[frontier].pos == pre[frontier].pos,
        mid[frontier].children@.len() == 0 ==> mid[frontier].pos@.outcome is Some,
        forall|j: int|
            0 <= j < mid[frontier as int].children@.len() ==> (#[trigger] mid[frontier
                as int].children@[j]) == pre.len() + j,
        forall|j: int|
            0 <= j < mid[frontier as int].children@.len() ==> mid[(#[trigger] mid[frontier
                as int].children@[j]) as int].visit_count == 0 && mid[mid[frontier
                as int].children@[j] as int].total_value == 0 && mid[mid[frontier
                as int].children@[j] as int].children@.len() == 0,
        fin.len() == mid.len(),
        forall|i: int|
            0 <= i < fin.len() ==> {
                let nw = #[trigger] fin[i];
                let od = mid[i];
                &&& nw.children == od.children
                &&& nw.action == od.action
                &&& nw.turn == od.turn
                &&& nw.prior == od.prior
                &&& nw.pos == od.pos
                &&& nw.visit_count == od.visit_count + (if path.contains(i as usize) {
                    1int
                } else {
                    0int
                })
                &&& nw.total_value as int == od.total_value + (if path.contains(i as usize) {
                    if od.turn == Player::Black {
                        v
                    } else {
                        -v
                    }
                } else {
                    0int
                })
                &&& (!path.contains(i as usize) ==> nw == od)
            },
    ensures
        arena_positions_wf(fin, size, k),
        iteration_frame(pre, fin, path, v),
{
    lemma_path_increasing(pre, path);
    assert forall|i: int|
        pre.len() <= i < mid.len() implies (#[trigger] mid[i]).visit_count == 0
            && mid[i].total_value == 0 && mid[i].children@.len() == 0 && mid[frontier
        as int].children@.contains(i as usize) by {
        let j = i - pre.len();
        assert(mid[frontier as int].children@[j] == pre.len() + j);
    }
    assert(path_wf(mid, path)) by {
        assert forall|t: int| 0 <= t < path.len() - 1 implies mid[(#[trigger] path[t])
            as int].children@.contains(path[t + 1]) by {
            assert(path[t] < path[path.len() - 1]);
            assert(mid[path[t] as int] == pre[path[t] as int]);
        }
    }
    assert forall|i: int|
        0 <= i < fin.len() && (#[trigger] fin[i]).children@.len() == 0 && fin[i].visit_count
            > 0 implies fin[i].pos@.outcome is Some by {
        assert(mid[i].children@.len() == 0);
        if mid[i].visit_count > 0 {
            assert(mid[i].pos@.outcome is Some);
        } else {
            assert((i as usize) as int == i);
            assert(path.contains(i as usize));
            let t = choose|t: int| 0 <= t < path.len() && #[trigger] path[t] == i as usize;
            assert(path[t] as int == i);
            if t < path.len() - 1 {
                assert(pre[path[t] as int].children@.contains(path[t + 1]));
                assert(pre[path[t] as int].children@.len() > 0);
                assert(path[t] < path[path.len() - 1]);
                assert(mid[path[t] as int] == pre[path[t] as int]);
                assert(false);
            }
            assert(path[t] == path.last());
            assert(i == frontier);
        }
    }
    lemma_positions_wf_transfer(mid, fin, size, k);
    assert(path_wf(fin, path)) by {
        assert forall|t: int| 0 <= t < path.len() - 1 implies fin[(#[trigger] path[t])
            as int].children@.contains(path[t + 1]) by {
            assert(fin[path[t] as int].children == mid[path[t] as int].children);
        }
    }
    assert forall|i: int| 0 <= i < pre.len() implies {
        let a = #[trigger] pre[i];
        let b = fin[i];
        &&& b.action == a.action
        &&& b.turn == a.turn
        &&& b.prior == a.prior
        &&& b.pos == a.pos
        &&& b.visit_count == a.visit_count + (if path.contains(i as usize) {
            1int
        } else {
            0int
        })
        &&& b.total_value as int == a.total_value + (if path.contains(i as usize) {
            if a.turn == Player::Black {
                v
            } else {
                -v
            }
        } else {
            0int
        })
        &&& (i != path.last() ==> b.children == a.children)
        &&& (!path.contains(i as usize) ==> b == a)
    } by {
        if i != frontier {
            assert(mid[i] == pre[i]);
        }
    }
    assert forall|i: int| pre.len() <= i < fin.len() implies {
        let b = #[trigger] fin[i];
        &&& b.visit_count == 0
        &&& b.total_value == 0
        &&& b.children@.len() == 0
        &&& fin[path.last() as int].children@.contains(i as usize)
    } by {
        if path.contains(i as usize) {
            let t = choose|t: int| 0 <= t < path.len() && path[t] == i as usize;
            assert(path[t] < pre.len());
            assert(false);
        }
        assert(fin[i] == mid[i]);
        assert(fin[frontier].children == mid[frontier].children);
    }
}

/// A quotient of values bounded by `bound * divisor` is bounded by `bound`.
proof fn lemma_div_bound(a: int, b: int, bound: int)
    requires
        b >= 1,
        bound >= 0,
        -(bound * b) <= a <= bound * b,
    ensures
        -bound <= div_toward_zero(a, b) <= bound,
{
    if a >= 0 {
        assert(a / b <= bound) by (nonlinear_arith)
            requires
                b >= 1,
                0 <= a <= bound * b,
        ;
        assert(a / b >= 0) by (nonlinear_arith)
            requires
                b >= 1,
                a >= 0,
        ;
    } else {
        assert((-a) / b <= bound) by (nonlinear_arith)
            requires
                b >= 1,
                0 <= -a <= bound * b,
        ;
        assert((-a) / b >= 0) by (nonlinear_arith)
            requires
                b >= 1,
                -a >= 0,
        ;
    }
}

} // verus!
