//! The foraging process: a population of agents relocating items across the
//! board.
//!
//! Each simulation step runs two strictly ordered phases over the whole
//! population: every agent MOVEs, then every agent may EXCHANGE (pick up or
//! drop) an item. Exchanges are committed one agent at a time by a single
//! synchronous driver, so each cell's occupancy is read, decided on and
//! mutated in one critical section per agent per step; this serial
//! intent-resolution is the architectural choice that replaces per-cell
//! locking.
//!
//! Every item is, at any instant, either on exactly one cell or carried by
//! exactly one agent; `Simulation::wf` ties the three stores (cells, items,
//! agents) together and every mutating operation preserves it.

use vstd::prelude::*;

use crate::board::Board;
use crate::board::BoardPosition;
use crate::board::Cell;
use crate::consts::FEATURE_LIMIT;
use crate::consts::SCALE;
use crate::prob::ProbabilityModel;
use crate::rng::random_below;
use crate::similarity::FeatureVec;
use crate::similarity::density_similarity;
use crate::similarity::feature_bounded;
use crate::similarity::feature_similarity;
use crate::similarity::spec_density_similarity;
use crate::similarity::spec_feature_similarity;

verus! {

broadcast use crate::board::lemma_position_index_nonneg;

/// External control state consulted by the foraging process, injected per
/// step.
#[derive(Debug, Clone, Copy, PartialEq, Eq, Structural)]
pub enum SimulationMode {
    /// Agents move and exchange freely.
    Running,
    /// No phase runs; the state is frozen.
    Paused,
    /// Pickup is disabled and empty-handed agents stop moving, so the system
    /// drains into a stable configuration.
    Ending,
}

impl SimulationMode {
    /// True in the `Paused` state.
    pub fn is_paused(&self) -> (r: bool)
        ensures
            r == (*self is Paused),
    {
        matches!(*self, SimulationMode::Paused)
    }

    /// True in the `Paused` and `Ending` states.
    pub fn is_paused_or_ending(&self) -> (r: bool)
        ensures
            r == (*self is Paused || *self is Ending),
    {
        matches!(*self, SimulationMode::Paused | SimulationMode::Ending)
    }

    /// The pause toggle of the control surface: flips between `Running` and
    /// `Paused`; `Ending` is unaffected.
    pub fn toggle_paused(&self) -> (r: SimulationMode)
        ensures
            *self is Running ==> r is Paused,
            *self is Paused ==> r is Running,
            *self is Ending ==> r is Ending,
    {
        match *self {
            SimulationMode::Running => SimulationMode::Paused,
            SimulationMode::Paused => SimulationMode::Running,
            SimulationMode::Ending => SimulationMode::Ending,
        }
    }

    /// The ending toggle of the control surface: flips between `Running` and
    /// `Ending`; `Paused` is unaffected.
    pub fn toggle_ending(&self) -> (r: SimulationMode)
        ensures
            *self is Running ==> r is Ending,
            *self is Ending ==> r is Running,
            *self is Paused ==> r is Paused,
    {
        match *self {
            SimulationMode::Running => SimulationMode::Ending,
            SimulationMode::Ending => SimulationMode::Running,
            SimulationMode::Paused => SimulationMode::Paused,
        }
    }
}

/// Enters `Ending` on every millionth step (a long-run safeguard); otherwise
/// leaves the mode unchanged.
pub fn auto_pause(mode: SimulationMode, update_count: u64) -> (r: SimulationMode)
    ensures
        update_count % 1_000_000 == 0 ==> r is Ending,
        update_count % 1_000_000 != 0 ==> r == mode,
{
    if update_count % 1_000_000 == 0 {
        SimulationMode::Ending
    } else {
        mode
    }
}

/// Where an item is: held by exactly one cell, or carried by exactly one
/// agent — never both, never neither.
#[derive(Debug, Clone, Copy, PartialEq, Eq, Structural)]
pub enum ItemLocation {
    /// On the board, on the cell with this index.
    OnBoard(usize),
    /// In the hands of the agent with this index.
    Carried(usize),
}

/// A relocatable item: an optional feature vector (used by the feature-form
/// metric) and its current location.
#[derive(Debug, Clone, Copy)]
pub struct Item {
    pub features: Option<FeatureVec>,
    pub loc: ItemLocation,
}

/// A mobile agent: a board position and at most one carried item.
#[derive(Debug, Clone, Copy)]
pub struct Agent {
    pub pos: BoardPosition,
    pub carried: Option<usize>,
}

/// Which similarity form is active, with its constants and its neighborhood
/// radius (in hops).
#[derive(Debug, Clone, Copy, PartialEq, Eq, Structural)]
pub enum SimilarityMetric {
    /// Occupied fraction of the neighborhood, amplified by `threshold`.
    Density { threshold: u32, radius: usize },
    /// Mean feature distance score with normalization constant `alpha`.
    Feature { alpha: u32, radius: usize },
}

/// Number of items of `items` that are on the board.
pub open spec fn count_on_board(items: Seq<Item>) -> int
    decreases items.len(),
{
    if items.len() == 0 {
        0
    } else {
        count_on_board(items.drop_last()) + if items.last().loc is OnBoard {
            1int
        } else {
            0int
        }
    }
}

/// Number of items of `items` that are carried.
pub open spec fn count_carried(items: Seq<Item>) -> int
    decreases items.len(),
{
    if items.len() == 0 {
        0
    } else {
        count_carried(items.drop_last()) + if items.last().loc is Carried {
            1int
        } else {
            0int
        }
    }
}

/// Law: the items on the board and the items carried always partition the
/// item population, so their counts sum to the total item count. Step
/// functions never change the item count, so this holds at every step.
pub proof fn lemma_item_conservation(items: Seq<Item>)
    ensures
        count_on_board(items) + count_carried(items) == items.len(),
    decreases items.len(),
{
    if items.len() > 0 {
        lemma_item_conservation(items.drop_last());
    }
}

/// Fatal configuration errors caught at startup.
#[derive(Debug, Clone, Copy, PartialEq, Eq, Structural)]
pub enum ConfigError {
    /// More items than board cells: the population does not fit.
    TooManyItems { items: usize, cells: usize },
    /// More agents than board cells: the population does not fit.
    TooManyAgents { agents: usize, cells: usize },
    /// A feature normalization constant of zero.
    BadMetric,
    /// An item's feature coordinates exceed the supported magnitude.
    FeatureOutOfRange { item: usize },
}

/// When every item lies on the board, the on-board count is the whole
/// population.
pub proof fn lemma_all_on_board(items: Seq<Item>)
    requires
        forall|i: int| 0 <= i < items.len() ==> (#[trigger] items[i]).loc is OnBoard,
    ensures
        count_on_board(items) == items.len(),
    decreases items.len(),
{
    if items.len() > 0 {
        assert(items[items.len() - 1].loc is OnBoard);
        assert forall|i: int| 0 <= i < items.drop_last().len() implies (#[trigger] items.drop_last()[i]).loc
            is OnBoard by {
            assert(items.drop_last()[i] == items[i]);
        }
        lemma_all_on_board(items.drop_last());
    }
}

/// The simulation state: the board (topology and occupancy), the item
/// population, the agent population and the active similarity metric.
pub struct Simulation {
    pub board: Board,
    pub items: Vec<Item>,
    pub agents: Vec<Agent>,
    pub metric: SimilarityMetric,
}

impl Simulation {
    /// The metric's constants are usable (a zero feature normalization would
    /// divide by zero).
    pub open spec fn metric_wf(&self) -> bool {
        match self.metric {
            SimilarityMetric::Density { .. } => true,
            SimilarityMetric::Feature { alpha, .. } => alpha >= 1,
        }
    }

    /// Item `i` is consistent: its features (if any) are bounded, and its
    /// location points back at a cell or agent that holds exactly this item.
    pub open spec fn item_ok(&self, i: int) -> bool {
        &&& (self.items@[i].features matches Some(f) ==> feature_bounded(f))
        &&& match self.items@[i].loc {
            ItemLocation::OnBoard(c) => c < self.board.cells@.len() && (self.board.cells@[
                c as int
            ].item matches Some(ii) && ii == i),
            ItemLocation::Carried(a) => a < self.agents@.len() && (self.agents@[
                a as int
            ].carried matches Some(ii) && ii == i),
        }
    }

    /// Every item is consistent.
    pub open spec fn items_wf(&self) -> bool {
        forall|i: int| 0 <= i < self.items@.len() ==> #[trigger] self.item_ok(i)
    }

    /// Cell `c` is consistent: if occupied, it holds a real item that knows
    /// it is on this cell.
    pub open spec fn cell_ok(&self, c: int) -> bool {
        self.board.cells@[c].item matches Some(i) ==> i < self.items@.len() && (self.items@[
            i as int
        ].loc matches ItemLocation::OnBoard(cc) && cc == c)
    }

    /// Every cell is consistent.
    pub open spec fn cells_wf(&self) -> bool {
        forall|c: int| 0 <= c < self.board.cells@.len() ==> #[trigger] self.cell_ok(c)
    }

    /// Agent `a` is consistent: it stands on a real cell, and its carried
    /// item (if any) knows it is carried by this agent.
    pub open spec fn agent_ok(&self, a: int) -> bool {
        &&& self.agents@[a].pos@ < self.board.cells@.len()
        &&& (self.agents@[a].carried matches Some(i) ==> i < self.items@.len() && (self.items@[
            i as int
        ].loc matches ItemLocation::Carried(aa) && aa == a))
    }

    /// Every agent is consistent.
    pub open spec fn agents_wf(&self) -> bool {
        forall|a: int| 0 <= a < self.agents@.len() ==> #[trigger] self.agent_ok(a)
    }

    /// The global well-formedness invariant, established by the constructor
    /// and preserved by every step.
    pub open spec fn wf(&self) -> bool {
        &&& self.board.wf()
        &&& self.metric_wf()
        &&& self.items_wf()
        &&& self.cells_wf()
        &&& self.agents_wf()
    }

    /// Law: no item is ever both on a cell and carried by an agent.
    pub proof fn lemma_no_dual_location(&self)
        requires
            self.wf(),
        ensures
            forall|c: int, a: int|
                0 <= c < self.board.cells@.len() && 0 <= a < self.agents@.len() ==> !((
                #[trigger] self.board.cells@[c]).item is Some && (
                #[trigger] self.agents@[a]).carried is Some && self.board.cells@[c].item
                    == self.agents@[a].carried),
    {
        assert forall|c: int, a: int|
            0 <= c < self.board.cells@.len() && 0 <= a < self.agents@.len() implies !((
        #[trigger] self.board.cells@[c]).item is Some && (#[trigger] self.agents@[a]).carried
            is Some && self.board.cells@[c].item == self.agents@[a].carried) by {
            if self.board.cells@[c].item is Some && self.agents@[a].carried is Some
                && self.board.cells@[c].item == self.agents@[a].carried {
                assert(self.cell_ok(c));
                assert(self.agent_ok(a));
                let i = self.board.cells@[c].item->Some_0;
                assert(self.items@[i as int].loc matches ItemLocation::OnBoard(cc) && cc == c);
                assert(self.items@[i as int].loc matches ItemLocation::Carried(aa) && aa == a);
            }
        }
    }

    /// The EXCHANGE step of one agent leaves the state unchanged, or commits
    /// one legal pickup, or one legal drop, of that agent.
    pub open spec fn exchange_outcome(pre: Simulation, post: Simulation, a: int) -> bool {
        ||| post == pre
        ||| Simulation::pickup_transition(pre, post, a)
        ||| Simulation::drop_transition(pre, post, a)
    }

    /// The similarity score `item` sees at cell `pos`: computed over the
    /// canonical (ascending) neighborhood of the configured radius, so the
    /// value is a function of the state alone.
    pub open spec fn spec_similarity_at(&self, pos: int, item: Item) -> int {
        spec_similarity(
            self.board.cells@,
            self.items@,
            item,
            self.board.spec_within_list(pos, spec_metric_radius(self.metric) as nat),
            self.metric,
        )
    }

    /// Where item `i` is scored: its own cell, or its carrier's cell.
    pub open spec fn spec_item_pos(&self, i: int) -> int {
        match self.items@[i].loc {
            ItemLocation::OnBoard(c) => c as int,
            ItemLocation::Carried(a) => self.agents@[a as int].pos@,
        }
    }

    /// The similarity score of item `i` at its place.
    pub open spec fn spec_item_score(&self, i: int) -> int {
        self.spec_similarity_at(self.spec_item_pos(i), self.items@[i])
    }

    /// Sum of the scores of the first `k` items.
    pub open spec fn spec_score_sum(&self, k: int) -> int
        decreases k,
    {
        if k <= 0 {
            0
        } else {
            self.spec_score_sum(k - 1) + self.spec_item_score(k - 1)
        }
    }

    /// The integer mean similarity across the whole item population; zero
    /// when there are no items.
    pub open spec fn spec_mean_similarity(&self) -> int {
        if self.items@.len() == 0 {
            0
        } else {
            self.spec_score_sum(self.items@.len() as int) / self.items@.len() as int
        }
    }

    /// The MOVE phase relation: board and items untouched, every agent's
    /// hands unchanged, frozen agents (empty-handed in `Ending`) fixed, and
    /// every other agent standing on a direct neighbor of its old cell (or
    /// fixed, if that cell has no neighbors).
    pub open spec fn move_phase_rel(pre: Simulation, post: Simulation, mode: SimulationMode) -> bool {
        &&& post.board.adj@ == pre.board.adj@
        &&& post.board.cells@ == pre.board.cells@
        &&& post.items@ == pre.items@
        &&& post.metric == pre.metric
        &&& post.agents@.len() == pre.agents@.len()
        &&& (forall|a: int|
            0 <= a < post.agents@.len() ==> (#[trigger] post.agents@[a]).carried
                == pre.agents@[a].carried)
        &&& (forall|a: int|
            0 <= a < post.agents@.len() && mode is Ending && pre.agents@[a].carried is None ==> (
            #[trigger] post.agents@[a]).pos == pre.agents@[a].pos)
        &&& (forall|a: int|
            0 <= a < post.agents@.len() && !(mode is Ending && pre.agents@[a].carried is None)
                ==> ({
                let ns = pre.board.spec_adj(pre.agents@[a].pos@);
                &&& (ns.len() == 0 ==> (#[trigger] post.agents@[a]).pos == pre.agents@[a].pos)
                &&& (ns.len() >= 1 ==> ns.contains(post.agents@[a].pos@ as usize))
            }))
    }

    /// Pre/post relation of agent `a` picking the item up off its cell: the
    /// cell empties, the agent's hands fill, the item's location moves — and
    /// nothing else changes.
    pub open spec fn pickup_transition(pre: Simulation, post: Simulation, a: int) -> bool {
        let pos = pre.agents@[a].pos;
        let i = pre.board.cells@[pos@].item->Some_0;
        &&& 0 <= a < pre.agents@.len()
        &&& pre.board.cells@[pos@].item is Some
        &&& pre.agents@[a].carried is None
        &&& post.board.adj@ == pre.board.adj@
        &&& post.board.cells@ == pre.board.cells@.update(pos@, (Cell { item: None }))
        &&& post.items@ == pre.items@.update(
            i as int,
            (Item {
                features: pre.items@[i as int].features,
                loc: ItemLocation::Carried(a as usize),
            }),
        )
        &&& post.agents@ == pre.agents@.update(a, (Agent { pos, carried: Some(i) }))
        &&& post.metric == pre.metric
    }

    /// Pre/post relation of agent `a` dropping its carried item onto its
    /// (empty) cell: the reverse ownership transfer of `pickup_transition`.
    pub open spec fn drop_transition(pre: Simulation, post: Simulation, a: int) -> bool {
        let pos = pre.agents@[a].pos;
        let i = pre.agents@[a].carried->Some_0;
        &&& 0 <= a < pre.agents@.len()
        &&& pre.board.cells@[pos@].item is None
        &&& pre.agents@[a].carried is Some
        &&& post.board.adj@ == pre.board.adj@
        &&& post.board.cells@ == pre.board.cells@.update(pos@, (Cell { item: Some(i) }))
        &&& post.items@ == pre.items@.update(
            i as int,
            (Item {
                features: pre.items@[i as int].features,
                loc: ItemLocation::OnBoard(pre.agents@[a].pos@ as usize),
            }),
        )
        &&& post.agents@ == pre.agents@.update(a, (Agent { pos, carried: None }))
        &&& post.metric == pre.metric
    }

    /// Picks the item on agent `a`'s cell up: removes it from the cell and
    /// attaches it to the agent, atomically with respect to the cell (the
    /// serial driver admits no interleaving).
    pub fn pick_up(&mut self, a: usize)
        requires
            old(self).wf(),
            a < old(self).agents@.len(),
            old(self).agents@[a as int].carried is None,
            old(self).board.cells@[old(self).agents@[a as int].pos@].item is Some,
        ensures
            final(self).wf(),
            Simulation::pickup_transition(*old(self), *final(self), a as int),
    {
        proof {
            assert(old(self).agent_ok(a as int));
            assert(old(self).cell_ok(old(self).agents@[a as int].pos@));
        }
        let pos = self.agents[a].pos;
        let i = self.board.get_cell(&pos).item.unwrap();
        self.board.set_item(&pos, None);
        let feats = self.items[i].features;
        self.items[i] = Item { features: feats, loc: ItemLocation::Carried(a) };
        self.agents[a] = Agent { pos, carried: Some(i) };
        proof {
            let pre = *old(self);
            let post = *self;
            assert(post.board.cells@ == pre.board.cells@.update(pos@, (Cell { item: None })));
            lemma_pickup_wf(pre, post, a);
        }
    }

    /// Drops agent `a`'s carried item onto its (empty) cell: the reverse
    /// ownership transfer of `pick_up`, equally atomic per cell.
    pub fn drop_item(&mut self, a: usize)
        requires
            old(self).wf(),
            a < old(self).agents@.len(),
            old(self).agents@[a as int].carried is Some,
            old(self).board.cells@[old(self).agents@[a as int].pos@].item is None,
        ensures
            final(self).wf(),
            Simulation::drop_transition(*old(self), *final(self), a as int),
    {
        proof {
            assert(old(self).agent_ok(a as int));
        }
        let pos = self.agents[a].pos;
        let i = self.agents[a].carried.unwrap();
        proof {
            assert(old(self).items@[i as int].loc == ItemLocation::Carried(a as usize));
        }
        self.board.set_item(&pos, Some(i));
        let feats = self.items[i].features;
        self.items[i] = Item { features: feats, loc: ItemLocation::OnBoard(pos.idx()) };
        self.agents[a] = Agent { pos, carried: None };
        proof {
            let pre = *old(self);
            let post = *self;
            lemma_drop_wf(pre, post, a);
        }
    }

    /// MOVE phase: every agent relocates to a uniformly random direct
    /// neighbor of its current cell — except that in `Ending` mode
    /// empty-handed agents are frozen, so the system gradually empties into
    /// the carried state. The phase is a full population barrier: it runs to
    /// completion before any exchange is considered. Agents may co-occupy a
    /// cell; only items are exclusive per cell.
    pub fn move_phase(&mut self, mode: SimulationMode)
        requires
            old(self).wf(),
        ensures
            final(self).wf(),
            Simulation::move_phase_rel(*old(self), *final(self), mode),
    {
        let n = self.agents.len();
        proof {
            assert forall|a2: int|
                0 <= a2 < n implies (#[trigger] self.agents@[a2]).pos@
                < self.board.cells@.len() by {
                assert(old(self).agent_ok(a2));
            }
        }
        let mut a: usize = 0;
        while a < n
            invariant
                old(self).wf(),
                a <= n,
                n == old(self).agents@.len(),
                self.board.adj@ == old(self).board.adj@,
                self.board.cells@ == old(self).board.cells@,
                self.items@ == old(self).items@,
                self.metric == old(self).metric,
                self.agents@.len() == n,
                forall|a2: int|
                    0 <= a2 < n ==> (#[trigger] self.agents@[a2]).carried == old(
                    self).agents@[a2].carried,
                forall|a2: int| a <= a2 < n ==> (#[trigger] self.agents@[a2]).pos == old(
                    self).agents@[a2].pos,
                forall|a2: int|
                    0 <= a2 < n ==> (#[trigger] self.agents@[a2]).pos@ < self.board.cells@.len(),
                forall|a2: int|
                    0 <= a2 < a && mode is Ending && old(self).agents@[a2].carried is None ==> (
                    #[trigger] self.agents@[a2]).pos == old(self).agents@[a2].pos,
                (forall|a2: int|
                    0 <= a2 < a && !(mode is Ending && old(self).agents@[a2].carried is None) ==> ({
                        let ns = old(self).board.spec_adj(old(self).agents@[a2].pos@);
                        &&& (ns.len() == 0 ==> (#[trigger] self.agents@[a2]).pos == old(self).agents@[a2].pos)
                        &&& (ns.len() >= 1 ==> ns.contains(self.agents@[a2].pos@ as usize))
                    })),
            decreases n - a,
        {
            let ag = self.agents[a];
            let frozen = match mode {
                SimulationMode::Ending => ag.carried.is_none(),
                _ => false,
            };
            if !frozen {
                proof {
                    assert(self.board.wf()) by {
                        assert(self.board.adj@ == old(self).board.adj@);
                        assert forall|v: int, k: int|
                            0 <= v < self.board.adj@.len() && 0 <= k < self.board.spec_adj(
                                v,
                            ).len() implies (#[trigger] self.board.spec_adj(v)[k])
                            < self.board.cells@.len() by {
                            assert(self.board.spec_adj(v) == old(self).board.spec_adj(v));
                        }
                    }
                }
                let deg = self.board.adj[ag.pos.idx()].len();
                if deg > 0 {
                    let np = self.board.random_neighbor(&ag.pos);
                    self.agents[a] = Agent { pos: np, carried: ag.carried };
                    proof {
                        assert(self.board.spec_adj(ag.pos@) == old(self).board.spec_adj(ag.pos@));
                    }
                }
            }
            a = a + 1;
        }
        proof {
            lemma_same_stores_wf(*old(self), *self);
        }
    }

    /// EXCHANGE step of one agent: inspect the item on the agent's cell,
    /// score the neighborhood, and pick up or drop with the modelled
    /// probability. Occupancy read, decision and mutation happen together,
    /// with no other agent in between (the serial driver is the critical
    /// section). The result is always either no change, or one legal pickup
    /// transition, or one legal drop transition of this agent.
    fn exchange_agent<M: ProbabilityModel>(&mut self, a: usize, mode: SimulationMode, model: &M)
        requires
            old(self).wf(),
            a < old(self).agents@.len(),
        ensures
            final(self).wf(),
            final(self).board.adj@ == old(self).board.adj@,
            final(self).board.cells@.len() == old(self).board.cells@.len(),
            final(self).items@.len() == old(self).items@.len(),
            final(self).metric == old(self).metric,
            forall|i: int|
                0 <= i < final(self).items@.len() ==> (#[trigger] final(self).items@[i]).features
                    == old(self).items@[i].features,
            final(self).agents@.len() == old(self).agents@.len(),
            forall|a2: int|
                0 <= a2 < final(self).agents@.len() ==> (#[trigger] final(self).agents@[a2]).pos
                    == old(self).agents@[a2].pos,
            forall|a2: int|
                0 <= a2 < final(self).agents@.len() && a2 != a ==> (#[trigger] final(self).agents@[a2]).carried == old(self).agents@[a2].carried,
            exchange_step_rel(*model, *old(self), *final(self), a as int, mode),
            mode is Ending && old(self).agents@[a as int].carried is None ==> final(self).agents@[a as int].carried is None,
    {
        let ag = self.agents[a];
        proof {
            assert(old(self).agent_ok(a as int));
        }
        let cell_occupied = self.board.get_cell(&ag.pos).item.is_some();
        let carrying = ag.carried.is_some();
        let ending = match mode {
            SimulationMode::Ending => true,
            _ => false,
        };
        let radius = match self.metric {
            SimilarityMetric::Density { radius, .. } => radius,
            SimilarityMetric::Feature { radius, .. } => radius,
        };
        proof {
            assert forall|c: int|
                0 <= c < self.board.cells@.len() implies ((#[trigger] self.board.cells@[c]).item
                matches Some(ii) ==> ii < self.items@.len()) by {
                assert(old(self).cell_ok(c));
            }
            assert forall|i: int|
                0 <= i < self.items@.len() implies ((#[trigger] self.items@[i]).features
                matches Some(f) ==> feature_bounded(f)) by {
                assert(old(self).item_ok(i));
            }
        }
        let mut p: u32 = 0;
        if cell_occupied && !carrying && !ending {
            let ns = self.board.neighbors_within_ordered(&ag.pos, radius);
            let i = self.board.get_cell(&ag.pos).item.unwrap();
            proof {
                assert(old(self).cell_ok(ag.pos@));
            }
            let it = self.items[i];
            let s = compute_similarity(&self.board, &self.items, &it, &ns, &self.metric);
            proof {
                assert(s == old(self).spec_similarity_at(ag.pos@, it));
            }
            p = model.pickup(s);
        } else if !cell_occupied && carrying {
            let ns = self.board.neighbors_within_ordered(&ag.pos, radius);
            let i = ag.carried.unwrap();
            let it = self.items[i];
            let s = compute_similarity(&self.board, &self.items, &it, &ns, &self.metric);
            proof {
                assert(s == old(self).spec_similarity_at(ag.pos@, it));
            }
            p = model.drop_carried(s);
        }
        let draw_raw = random_below(SCALE as usize);
        proof {
            assert(draw_raw < 1000);
        }
        let draw = draw_raw as u32;
        let act = exchange_decision(cell_occupied, carrying, ending, p, draw);
        match act {
            ExchangeAction::PickUp => {
                self.pick_up(a);
            },
            ExchangeAction::PutDown => {
                self.drop_item(a);
            },
            ExchangeAction::Hold => {},
        }
        proof {
            let pre = *old(self);
            let post = *self;
            let pos = pre.agents@[a as int].pos;
            // certainty: a probability of one forces the exchange, since the
            // draw is always below the scale
            if cell_occupied && !carrying && !ending {
                let it = pre.items@[pre.board.cells@[pos@].item->Some_0 as int];
                if model.spec_pickup(pre.spec_similarity_at(pos@, it) as u32) == SCALE {
                    assert(pre.spec_similarity_at(pos@, it) as u32 as int == pre.spec_similarity_at(
                        pos@,
                        it,
                    ));
                    assert(p == SCALE);
                    assert(act is PickUp);
                }
            }
            if !cell_occupied && carrying {
                let it = pre.items@[pre.agents@[a as int].carried->Some_0 as int];
                if model.spec_drop(pre.spec_similarity_at(pos@, it) as u32) == SCALE {
                    assert(pre.spec_similarity_at(pos@, it) as u32 as int == pre.spec_similarity_at(
                        pos@,
                        it,
                    ));
                    assert(p == SCALE);
                    assert(act is PutDown);
                }
            }
            // frame and Ending monotonicity, by the action taken
            match act {
                ExchangeAction::PickUp => {
                    assert(!(mode is Ending));
                },
                ExchangeAction::PutDown => {
                    assert(Simulation::drop_transition(pre, post, a as int));
                    if Simulation::pickup_transition(pre, post, a as int) {
                        assert(pre.board.cells@[pos@].item is Some);
                        assert(false);
                    }
                    assert forall|c: int|
                        0 <= c < pre.board.cells@.len() && (#[trigger] pre.board.cells@[c]).item
                        is Some implies post.board.cells@[c].item is Some by {
                        if c != pos@ {
                            assert(post.board.cells@[c] == pre.board.cells@[c]);
                        }
                    }
                },
                ExchangeAction::Hold => {
                    assert(post == pre);
                    if Simulation::pickup_transition(pre, post, a as int) {
                        assert(post.board.cells@[pos@] == pre.board.cells@.update(
                            pos@,
                            (Cell { item: None }),
                        )[pos@]);
                        assert(false);
                    }
                },
            }
        }
    }

    /// EXCHANGE phase: every agent, in index order, runs its exchange step —
    /// a chain of per-agent transitions from the incoming state to the final
    /// one. Positions never change here, only cells under some agent's
    /// position can change, and in `Ending` mode no agent acquires an item
    /// and no cell loses one: the carried population only drains back onto
    /// the board.
    pub fn exchange_phase<M: ProbabilityModel>(&mut self, mode: SimulationMode, model: &M)
        requires
            old(self).wf(),
        ensures
            final(self).wf(),
            exchange_phase_rel(*model, *old(self), *final(self), mode),
    {
        let n = self.agents.len();
        let ghost mut chain: Seq<Simulation> = seq![*old(self)];
        let mut a: usize = 0;
        while a < n
            invariant
                self.wf(),
                a <= n,
                n == old(self).agents@.len(),
                self.board.adj@ == old(self).board.adj@,
                self.board.cells@.len() == old(self).board.cells@.len(),
                self.items@.len() == old(self).items@.len(),
                self.metric == old(self).metric,
                forall|i: int|
                    0 <= i < self.items@.len() ==> (#[trigger] self.items@[i]).features == old(
                    self).items@[i].features,
                self.agents@.len() == n,
                forall|a2: int| 0 <= a2 < n ==> (#[trigger] self.agents@[a2]).pos == old(
                    self).agents@[a2].pos,
                forall|a2: int| a <= a2 < n ==> (#[trigger] self.agents@[a2]).carried == old(
                    self).agents@[a2].carried,
                mode is Ending ==> forall|a2: int|
                    0 <= a2 < a && old(self).agents@[a2].carried is None ==> (
                    #[trigger] self.agents@[a2]).carried is None,
                mode is Ending ==> forall|c: int|
                    0 <= c < old(self).board.cells@.len() && (#[trigger] old(
                    self).board.cells@[c]).item is Some ==> self.board.cells@[c].item is Some,
                forall|c: int|
                    0 <= c < old(self).board.cells@.len() && !(exists|a2: int|
                        0 <= a2 < n && (#[trigger] old(self).agents@[a2]).pos@ == c) ==> (
                    #[trigger] self.board.cells@[c]) == old(self).board.cells@[c],
                chain.len() == a + 1,
                chain[0] == *old(self),
                chain[a as int] == *self,
                forall|j: int|
                    0 <= j < a ==> #[trigger] exchange_step_rel(
                        *model,
                        chain[j],
                        chain[j + 1],
                        j,
                        mode,
                    ),
            decreases n - a,
        {
            let ghost before = *self;
            self.exchange_agent(a, mode, model);
            proof {
                chain = chain.push(*self);
                assert(chain[a as int + 1] == *self);
                assert(chain[a as int] == before);
                assert(exchange_step_rel(*model, before, *self, a as int, mode));
                // only the agent's own cell changed; that cell is under an
                // agent's position
                assert forall|c: int|
                    0 <= c < old(self).board.cells@.len() && !(exists|a2: int|
                        0 <= a2 < n && (#[trigger] old(self).agents@[a2]).pos@ == c) implies (
                #[trigger] self.board.cells@[c]) == old(self).board.cells@[c] by {
                    if c != before.agents@[a as int].pos@ {
                        assert(self.board.cells@[c] == before.board.cells@[c]);
                    } else {
                        assert(before.agents@[a as int].pos == old(self).agents@[a as int].pos);
                        assert(old(self).agents@[a as int].pos@ == c);
                    }
                }
            }
            a = a + 1;
        }
        proof {
            assert(exchange_chain_ok(*model, chain, *old(self), *self, mode));
        }
    }

    /// One full simulation step: the MOVE phase runs over the whole
    /// population, then — only after that full barrier — the EXCHANGE phase
    /// runs from the intermediate state (`step_rel` states exactly this
    /// composition). In `Paused` mode the step does nothing at all.
    pub fn step_once<M: ProbabilityModel>(&mut self, mode: SimulationMode, model: &M)
        requires
            old(self).wf(),
        ensures
            final(self).wf(),
            step_rel(*model, *old(self), *final(self), mode),
            final(self).board.adj@ == old(self).board.adj@,
            final(self).board.cells@.len() == old(self).board.cells@.len(),
            final(self).items@.len() == old(self).items@.len(),
            final(self).metric == old(self).metric,
            forall|i: int|
                0 <= i < final(self).items@.len() ==> (#[trigger] final(self).items@[i]).features
                    == old(self).items@[i].features,
            final(self).agents@.len() == old(self).agents@.len(),
            mode is Paused ==> *final(self) == *old(self),
            mode is Ending ==> forall|a: int|
                0 <= a < final(self).agents@.len() && old(self).agents@[a].carried is None ==> (
                #[trigger] final(self).agents@[a]).carried is None,
            mode is Ending ==> forall|c: int|
                0 <= c < final(self).board.cells@.len() && (#[trigger] old(
                self).board.cells@[c]).item is Some ==> final(self).board.cells@[c].item is Some,
    {
        if mode.is_paused() {
            return ;
        }
        self.move_phase(mode);
        let ghost mid = *self;
        self.exchange_phase(mode, model);
        proof {
            assert(Simulation::move_phase_rel(*old(self), mid, mode));
            assert(exchange_phase_rel(*model, mid, *self, mode));
        }
    }

    /// Builds a simulation: checks the configuration (a population larger
    /// than the board, an unusable metric constant or an oversized feature
    /// coordinate is a fatal startup error), places each item on its own
    /// uniformly chosen free cell, and spawns each agent empty-handed on a
    /// uniformly chosen cell.
    #[verifier::loop_isolation(false)]
    pub fn new(
        board: Board,
        features: Vec<Option<FeatureVec>>,
        agent_count: usize,
        metric: SimilarityMetric,
    ) -> (r: Result<Simulation, ConfigError>)
        requires
            board.wf(),
            board.all_cells_empty(),
        ensures
            (match metric {
                SimilarityMetric::Feature { alpha, .. } => alpha == 0,
                _ => false,
            }) ==> r == Result::<Simulation, ConfigError>::Err(ConfigError::BadMetric),
            (match metric {
                SimilarityMetric::Feature { alpha, .. } => alpha >= 1,
                _ => true,
            }) && features@.len() > board.cells@.len() ==> r == Result::<
                Simulation,
                ConfigError,
            >::Err(
                ConfigError::TooManyItems {
                    items: features@.len() as usize,
                    cells: board.cells@.len() as usize,
                },
            ),
            (match metric {
                SimilarityMetric::Feature { alpha, .. } => alpha >= 1,
                _ => true,
            }) && features@.len() <= board.cells@.len() && agent_count > board.cells@.len()
                ==> r == Result::<Simulation, ConfigError>::Err(
                ConfigError::TooManyAgents {
                    agents: agent_count,
                    cells: board.cells@.len() as usize,
                },
            ),
            r matches Err(e) ==> (e matches ConfigError::FeatureOutOfRange { item } ==> 0 <= item
                < features@.len() && (features@[item as int] matches Some(f) && !feature_bounded(
                f,
            ))),
            (match metric {
                SimilarityMetric::Feature { alpha, .. } => alpha >= 1,
                _ => true,
            }) && features@.len() <= board.cells@.len() && agent_count <= board.cells@.len() && (
            forall|i: int|
                0 <= i < features@.len() ==> ((#[trigger] features@[i]) matches Some(f)
                    ==> feature_bounded(f))) ==> (r matches Ok(sim) && {
                &&& sim.wf()
                &&& sim.board.adj@ == board.adj@
                &&& sim.board.cells@.len() == board.cells@.len()
                &&& sim.metric == metric
                &&& sim.items@.len() == features@.len()
                &&& (forall|i: int|
                    0 <= i < sim.items@.len() ==> (#[trigger] sim.items@[i]).features
                        == features@[i])
                &&& count_on_board(sim.items@) == sim.items@.len()
                &&& sim.agents@.len() == agent_count
                &&& (forall|a: int|
                    0 <= a < sim.agents@.len() ==> (#[trigger] sim.agents@[a]).carried is None)
            }),
    {
        match metric {
            SimilarityMetric::Feature { alpha, .. } => {
                if alpha == 0 {
                    return Err(ConfigError::BadMetric);
                }
            },
            _ => {},
        }
        let size = board.size();
        let item_count = features.len();
        if item_count > size {
            return Err(ConfigError::TooManyItems { items: item_count, cells: size });
        }
        if agent_count > size {
            return Err(ConfigError::TooManyAgents { agents: agent_count, cells: size });
        }
        let mut j: usize = 0;
        while j < item_count
            invariant
                item_count == features@.len(),
                forall|jj: int|
                    0 <= jj < j ==> ((#[trigger] features@[jj]) matches Some(f)
                        ==> feature_bounded(f)),
            decreases item_count - j,
        {
            match &features[j] {
                Some(f) => {
                    if f.x < -FEATURE_LIMIT || f.x > FEATURE_LIMIT || f.y < -FEATURE_LIMIT || f.y
                        > FEATURE_LIMIT {
                        return Err(ConfigError::FeatureOutOfRange { item: j });
                    }
                },
                None => {},
            }
            j = j + 1;
        }
        let ghost adj0 = board.adj@;
        let mut free: Vec<usize> = Vec::new();
        let mut c: usize = 0;
        while c < size
            invariant
                c <= size,
                free@.len() == c,
                forall|k: int| 0 <= k < c ==> (#[trigger] free@[k]) == k,
            decreases size - c,
        {
            free.push(c);
            c = c + 1;
        }
        let mut sim = Simulation { board, items: Vec::new(), agents: Vec::new(), metric };
        let mut i: usize = 0;
        while i < item_count
            invariant
                item_count <= size,
                item_count == features@.len(),
                forall|jj: int|
                    0 <= jj < item_count ==> ((#[trigger] features@[jj]) matches Some(f)
                        ==> feature_bounded(f)),
                i <= item_count,
                sim.board.wf(),
                sim.board.adj@ == adj0,
                sim.board.cells@.len() == size,
                sim.metric == metric,
                sim.agents@.len() == 0,
                sim.items@.len() == i,
                free@.len() + i == size,
                forall|k: int| 0 <= k < free@.len() ==> (#[trigger] free@[k]) < size,
                forall|k1: int, k2: int|
                    0 <= k1 < k2 < free@.len() ==> (#[trigger] free@[k1]) != (#[trigger] free@[k2]),
                forall|k: int|
                    0 <= k < free@.len() ==> (#[trigger] sim.board.cells@[free@[k] as int]).item
                        is None,
                forall|cc: int|
                    0 <= cc < size ==> ((#[trigger] sim.board.cells@[cc]).item matches Some(ii)
                        ==> ii < i && (sim.items@[ii as int].loc matches ItemLocation::OnBoard(c2)
                        && c2 == cc)),
                forall|ii: int|
                    0 <= ii < i ==> ((#[trigger] sim.items@[ii]).features == features@[ii]
                        && (sim.items@[ii].loc matches ItemLocation::OnBoard(c2) && c2 < size && (
                        sim.board.cells@[c2 as int].item matches Some(i2) && i2 == ii))),
            decreases item_count - i,
        {
            let k = random_below(free.len());
            let cfree = free[k];
            free.swap_remove(k);
            let cpos = match BoardPosition::new(cfree, sim.board.size()) {
                Ok(p) => p,
                Err(_) => {
                    proof {
                        assert(false);
                    }
                    return Err(ConfigError::BadMetric);
                },
            };
            sim.board.set_item(&cpos, Some(i));
            sim.items.push(Item { features: features[i], loc: ItemLocation::OnBoard(cfree) });
            i = i + 1;
        }
        let ghost placed_items = sim.items@;
        let ghost placed_cells = sim.board.cells@;
        let mut a: usize = 0;
        while a < agent_count
            invariant
                a <= agent_count,
                agent_count <= size,
                sim.board.wf(),
                sim.board.adj@ == adj0,
                sim.board.cells@ == placed_cells,
                sim.board.cells@.len() == size,
                sim.items@ == placed_items,
                sim.metric == metric,
                sim.agents@.len() == a,
                forall|a2: int|
                    0 <= a2 < a ==> (#[trigger] sim.agents@[a2]).carried is None && sim.agents@[
                    a2].pos@ < size,
            decreases agent_count - a,
        {
            let pos = sim.board.random_position();
            sim.agents.push(Agent { pos, carried: None });
            a = a + 1;
        }
        proof {
            assert(sim.metric_wf());
            assert(sim.items_wf()) by {
                assert forall|ii: int| 0 <= ii < sim.items@.len() implies #[trigger] sim.item_ok(
                    ii,
                ) by {
                    assert(sim.items@[ii].features == features@[ii]);
                }
            }
            assert(sim.cells_wf()) by {
                assert forall|cc: int|
                    0 <= cc < sim.board.cells@.len() implies #[trigger] sim.cell_ok(cc) by {}
            }
            assert(sim.agents_wf()) by {
                assert forall|a2: int|
                    0 <= a2 < sim.agents@.len() implies #[trigger] sim.agent_ok(a2) by {}
            }
            assert(count_on_board(sim.items@) == sim.items@.len()) by {
                assert forall|ii: int|
                    0 <= ii < sim.items@.len() implies (#[trigger] sim.items@[ii]).loc
                    is OnBoard by {}
                lemma_all_on_board(sim.items@);
            }
        }
        Ok(sim)
    }

    /// Number of items currently on the board (read-only observability).
    pub fn items_on_board(&self) -> (r: usize)
        ensures
            r == count_on_board(self.items@),
    {
        let n = self.items.len();
        let mut r: usize = 0;
        let mut k: usize = 0;
        while k < n
            invariant
                n == self.items@.len(),
                k <= n,
                r <= k,
                r == count_on_board(self.items@.take(k as int)),
            decreases n - k,
        {
            proof {
                assert(self.items@.take(k as int + 1).drop_last() =~= self.items@.take(k as int));
                assert(self.items@.take(k as int + 1).last() == self.items@[k as int]);
            }
            match self.items[k].loc {
                ItemLocation::OnBoard(_) => {
                    r = r + 1;
                },
                ItemLocation::Carried(_) => {},
            }
            k = k + 1;
        }
        proof {
            assert(self.items@.take(n as int) =~= self.items@);
        }
        r
    }

    /// Number of items currently carried (read-only observability).
    pub fn items_carried(&self) -> (r: usize)
        ensures
            r == count_carried(self.items@),
    {
        let n = self.items.len();
        let mut r: usize = 0;
        let mut k: usize = 0;
        while k < n
            invariant
                n == self.items@.len(),
                k <= n,
                r <= k,
                r == count_carried(self.items@.take(k as int)),
            decreases n - k,
        {
            proof {
                assert(self.items@.take(k as int + 1).drop_last() =~= self.items@.take(k as int));
                assert(self.items@.take(k as int + 1).last() == self.items@[k as int]);
            }
            match self.items[k].loc {
                ItemLocation::Carried(_) => {
                    r = r + 1;
                },
                ItemLocation::OnBoard(_) => {},
            }
            k = k + 1;
        }
        proof {
            assert(self.items@.take(n as int) =~= self.items@);
        }
        r
    }

    /// Mean similarity across the current item population — every item
    /// scored at its cell, a carried item at its carrier's cell, over the
    /// canonical neighborhood of the configured radius: the aggregate metric
    /// an external observer reads once per step. The result is exactly the
    /// integer mean `spec_mean_similarity`; zero when there are no items.
    pub fn mean_similarity(&self) -> (r: u32)
        requires
            self.wf(),
        ensures
            r == self.spec_mean_similarity(),
            r <= SCALE,
    {
        let n = self.items.len();
        if n == 0 {
            return 0;
        }
        let mut sum: u128 = 0;
        let mut i: usize = 0;
        proof {
            assert forall|c: int|
                0 <= c < self.board.cells@.len() implies ((#[trigger] self.board.cells@[c]).item
                matches Some(ii) ==> ii < self.items@.len()) by {
                assert(self.cell_ok(c));
            }
            assert forall|ii: int|
                0 <= ii < self.items@.len() implies ((#[trigger] self.items@[ii]).features
                matches Some(f) ==> feature_bounded(f)) by {
                assert(self.item_ok(ii));
            }
        }
        while i < n
            invariant
                self.wf(),
                n == self.items@.len(),
                i <= n,
                sum == self.spec_score_sum(i as int),
                sum <= (i as u128) * 1000,
                forall|c: int|
                    0 <= c < self.board.cells@.len() ==> ((#[trigger] self.board.cells@[c]).item
                        matches Some(ii) ==> ii < self.items@.len()),
                forall|ii: int|
                    0 <= ii < self.items@.len() ==> ((#[trigger] self.items@[ii]).features
                        matches Some(f) ==> feature_bounded(f)),
            decreases n - i,
        {
            let it = self.items[i];
            proof {
                assert(self.item_ok(i as int));
            }
            let cpos = match it.loc {
                ItemLocation::OnBoard(c) => {
                    match BoardPosition::new(c, self.board.size()) {
                        Ok(p) => p,
                        Err(_) => {
                            proof {
                                assert(false);
                            }
                            return 0;
                        },
                    }
                },
                ItemLocation::Carried(ag) => {
                    proof {
                        assert(self.agent_ok(ag as int));
                    }
                    self.agents[ag].pos
                },
            };
            proof {
                assert(cpos@ == self.spec_item_pos(i as int));
            }
            let radius = match self.metric {
                SimilarityMetric::Density { radius, .. } => radius,
                SimilarityMetric::Feature { radius, .. } => radius,
            };
            let ns = self.board.neighbors_within_ordered(&cpos, radius);
            let s = compute_similarity(&self.board, &self.items, &it, &ns, &self.metric);
            proof {
                assert(s == self.spec_item_score(i as int));
                assert((i as u128) * 1000 + 1000 == ((i + 1) as u128) * 1000) by (nonlinear_arith);
                assert(((i + 1) as u128) * 1000 <= 0x2_0000_0000_0000_0000u128 * 1000)
                    by (nonlinear_arith)
                    requires
                        0 <= ((i + 1) as u128) <= 0x2_0000_0000_0000_0000u128,
                ;
            }
            sum = sum + s as u128;
            i = i + 1;
        }
        let m = sum / (n as u128);
        proof {
            assert((n as u128) * 1000 == 1000 * (n as u128)) by (nonlinear_arith);
            vstd::arithmetic::div_mod::lemma_div_is_ordered(
                sum as int,
                (1000 * (n as u128)) as int,
                n as int,
            );
            vstd::arithmetic::div_mod::lemma_div_by_multiple(1000int, n as int);
        }
        m as u32
    }

}

/// Number of occupied cells among the neighborhood `ns`.
pub open spec fn spec_occupied_count(cells: Seq<Cell>, ns: Seq<BoardPosition>) -> int
    decreases ns.len(),
{
    if ns.len() == 0 {
        0
    } else {
        spec_occupied_count(cells, ns.drop_last()) + if cells[ns.last()@].item is Some {
            1int
        } else {
            0int
        }
    }
}

/// The feature vectors of the items occupying the neighborhood `ns`, in
/// neighborhood order; items without features are skipped.
pub open spec fn spec_neighbor_features(
    cells: Seq<Cell>,
    items: Seq<Item>,
    ns: Seq<BoardPosition>,
) -> Seq<FeatureVec>
    decreases ns.len(),
{
    if ns.len() == 0 {
        Seq::empty()
    } else {
        let rest = spec_neighbor_features(cells, items, ns.drop_last());
        match cells[ns.last()@].item {
            Some(i) => match items[i as int].features {
                Some(f) => rest.push(f),
                None => rest,
            },
            None => rest,
        }
    }
}

/// The similarity score an item sees over the neighborhood `ns`: the density
/// form counts occupied cells, the feature form averages feature distances to
/// the occupied neighbors (zero for an item without features).
pub open spec fn spec_similarity(
    cells: Seq<Cell>,
    items: Seq<Item>,
    item: Item,
    ns: Seq<BoardPosition>,
    metric: SimilarityMetric,
) -> int {
    match metric {
        SimilarityMetric::Density { threshold, .. } => {
            let occ = spec_occupied_count(cells, ns);
            spec_density_similarity(occ, ns.len() - occ, threshold as int)
        },
        SimilarityMetric::Feature { alpha, .. } => match item.features {
            Some(f) => spec_feature_similarity(f, spec_neighbor_features(cells, items, ns), alpha as int),
            None => 0,
        },
    }
}

/// Computes the similarity score of `item` over the neighborhood `ns` of the
/// board, under the given metric.
pub fn compute_similarity(
    board: &Board,
    items: &Vec<Item>,
    item: &Item,
    ns: &Vec<BoardPosition>,
    metric: &SimilarityMetric,
) -> (s: u32)
    requires
        board.wf(),
        (metric matches SimilarityMetric::Feature { alpha, .. } ==> alpha >= 1),
        forall|k: int| 0 <= k < ns@.len() ==> (#[trigger] ns@[k])@ < board.cells@.len(),
        forall|c: int|
            0 <= c < board.cells@.len() ==> ((#[trigger] board.cells@[c]).item matches Some(i)
                ==> i < items@.len()),
        forall|i: int|
            0 <= i < items@.len() ==> ((#[trigger] items@[i]).features matches Some(f)
                ==> feature_bounded(f)),
        (item.features matches Some(f) ==> feature_bounded(f)),
    ensures
        s == spec_similarity(board.cells@, items@, *item, ns@, *metric),
        s <= SCALE,
{
    let len = ns.len();
    let mut occ: usize = 0;
    let mut feats: Vec<FeatureVec> = Vec::new();
    let mut k: usize = 0;
    while k < len
        invariant
            board.wf(),
            len == ns@.len(),
            k <= len,
            occ <= k,
            forall|kk: int| 0 <= kk < ns@.len() ==> (#[trigger] ns@[kk])@ < board.cells@.len(),
            forall|c: int|
                0 <= c < board.cells@.len() ==> ((#[trigger] board.cells@[c]).item matches Some(i)
                    ==> i < items@.len()),
            forall|i: int|
                0 <= i < items@.len() ==> ((#[trigger] items@[i]).features matches Some(f)
                    ==> feature_bounded(f)),
            occ == spec_occupied_count(board.cells@, ns@.take(k as int)),
            feats@ == spec_neighbor_features(board.cells@, items@, ns@.take(k as int)),
            forall|j: int| 0 <= j < feats@.len() ==> feature_bounded(#[trigger] feats@[j]),
        decreases len - k,
    {
        let p = &ns[k];
        proof {
            assert(ns@.take(k as int + 1).drop_last() =~= ns@.take(k as int));
            assert(ns@.take(k as int + 1).last() == ns@[k as int]);
        }
        let cell = board.get_cell(p);
        match cell.item {
            Some(i) => {
                occ = occ + 1;
                let fo = items[i].features;
                match fo {
                    Some(f) => {
                        feats.push(f);
                    },
                    None => {},
                }
            },
            None => {},
        }
        k = k + 1;
    }
    proof {
        assert(ns@.take(len as int) =~= ns@);
    }
    match metric {
        SimilarityMetric::Density { threshold, .. } => density_similarity(occ, len - occ, *threshold),
        SimilarityMetric::Feature { alpha, .. } => match &item.features {
            Some(f) => feature_similarity(f, &feats, *alpha),
            None => 0,
        },
    }
}

/// What an agent does in the EXCHANGE phase.
#[derive(Debug, Clone, Copy, PartialEq, Eq, Structural)]
pub enum ExchangeAction {
    /// Take the item off the cell.
    PickUp,
    /// Put the carried item onto the cell.
    PutDown,
    /// No exchange.
    Hold,
}

/// The exchange decision rule, exact and deterministic in its inputs: pick up
/// exactly when the cell is occupied, the hands are empty, the mode is not
/// `Ending` and the random draw falls below the pickup probability `p`; put
/// down exactly when the cell is empty, an item is carried and the draw falls
/// below the drop probability `p`; otherwise no exchange.
pub fn exchange_decision(
    cell_occupied: bool,
    carrying: bool,
    ending: bool,
    p: u32,
    draw: u32,
) -> (act: ExchangeAction)
    ensures
        (act is PickUp <==> (cell_occupied && !carrying && !ending && draw < p)),
        (act is PutDown <==> (!cell_occupied && carrying && draw < p)),
        (act is Hold <==> !(cell_occupied && !carrying && !ending && draw < p) && !(!cell_occupied
            && carrying && draw < p)),
{
    if cell_occupied && !carrying && !ending && draw < p {
        ExchangeAction::PickUp
    } else if !cell_occupied && carrying && draw < p {
        ExchangeAction::PutDown
    } else {
        ExchangeAction::Hold
    }

}

/// The neighborhood radius the active metric is configured with.
pub open spec fn spec_metric_radius(metric: SimilarityMetric) -> usize {
    match metric {
        SimilarityMetric::Density { radius, .. } => radius,
        SimilarityMetric::Feature { radius, .. } => radius,
    }
}

/// One agent's EXCHANGE step: the outcome is a legal exchange of that agent;
/// where the modelled probability at the exact similarity is certainty the
/// exchange must happen (a drop probability of one is a deterministic drop);
/// in `Ending` mode no pickup occurs and no cell loses its item; and only the
/// agent's own cell may change.
pub open spec fn exchange_step_rel<M: ProbabilityModel>(
    model: M,
    pre: Simulation,
    post: Simulation,
    a: int,
    mode: SimulationMode,
) -> bool {
    let pos = pre.agents@[a].pos;
    let occupied = pre.board.cells@[pos@].item is Some;
    let carrying = pre.agents@[a].carried is Some;
    &&& Simulation::exchange_outcome(pre, post, a)
    &&& (occupied && !carrying && !(mode is Ending) && model.spec_pickup(
        pre.spec_similarity_at(pos@, pre.items@[pre.board.cells@[pos@].item->Some_0 as int]) as u32,
    ) == SCALE ==> Simulation::pickup_transition(pre, post, a))
    &&& (!occupied && carrying && model.spec_drop(
        pre.spec_similarity_at(pos@, pre.items@[pre.agents@[a].carried->Some_0 as int]) as u32,
    ) == SCALE ==> Simulation::drop_transition(pre, post, a))
    &&& (mode is Ending ==> !Simulation::pickup_transition(pre, post, a))
    &&& (mode is Ending ==> forall|c: int|
        0 <= c < pre.board.cells@.len() && (#[trigger] pre.board.cells@[c]).item is Some
            ==> post.board.cells@[c].item is Some)
    &&& (forall|c: int|
        0 <= c < pre.board.cells@.len() && c != pre.agents@[a].pos@ ==> (
        #[trigger] post.board.cells@[c]) == pre.board.cells@[c])
}

/// The EXCHANGE phase is the agents' steps chained in index order.
pub open spec fn exchange_chain_ok<M: ProbabilityModel>(
    model: M,
    chain: Seq<Simulation>,
    pre: Simulation,
    post: Simulation,
    mode: SimulationMode,
) -> bool {
    &&& chain.len() == pre.agents@.len() + 1
    &&& chain[0] == pre
    &&& chain[chain.len() - 1] == post
    &&& (forall|a: int|
        0 <= a < pre.agents@.len() ==> #[trigger] exchange_step_rel(
            model,
            chain[a],
            chain[a + 1],
            a,
            mode,
        ))
}

/// The EXCHANGE phase relation: positions fixed, features and counts
/// preserved, cells not under any agent untouched, `Ending` drains (no cell
/// loses its item, no empty hand fills), and the whole phase is a chain of
/// per-agent steps in index order.
pub open spec fn exchange_phase_rel<M: ProbabilityModel>(
    model: M,
    pre: Simulation,
    post: Simulation,
    mode: SimulationMode,
) -> bool {
    &&& post.board.adj@ == pre.board.adj@
    &&& post.board.cells@.len() == pre.board.cells@.len()
    &&& post.items@.len() == pre.items@.len()
    &&& post.metric == pre.metric
    &&& (forall|i: int|
        0 <= i < post.items@.len() ==> (#[trigger] post.items@[i]).features
            == pre.items@[i].features)
    &&& post.agents@.len() == pre.agents@.len()
    &&& (forall|a: int|
        0 <= a < post.agents@.len() ==> (#[trigger] post.agents@[a]).pos == pre.agents@[a].pos)
    &&& (mode is Ending ==> forall|a: int|
        0 <= a < post.agents@.len() && pre.agents@[a].carried is None ==> (
        #[trigger] post.agents@[a]).carried is None)
    &&& (mode is Ending ==> forall|c: int|
        0 <= c < pre.board.cells@.len() && (#[trigger] pre.board.cells@[c]).item is Some
            ==> post.board.cells@[c].item is Some)
    &&& (forall|c: int|
        0 <= c < pre.board.cells@.len() && !(exists|a: int|
            0 <= a < pre.agents@.len() && (#[trigger] pre.agents@[a]).pos@ == c) ==> (
        #[trigger] post.board.cells@[c]) == pre.board.cells@[c])
    &&& (exists|chain: Seq<Simulation>| #[trigger] exchange_chain_ok(model, chain, pre, post, mode))
}

/// One full step: in `Paused` mode nothing at all; otherwise the MOVE phase
/// runs to completion (the full population barrier) and the EXCHANGE phase
/// follows from the intermediate state.
pub open spec fn step_rel<M: ProbabilityModel>(
    model: M,
    pre: Simulation,
    post: Simulation,
    mode: SimulationMode,
) -> bool {
    ||| (mode is Paused && post == pre)
    ||| (!(mode is Paused) && exists|mid: Simulation|
        #[trigger] Simulation::move_phase_rel(pre, mid, mode) && exchange_phase_rel(
            model,
            mid,
            post,
            mode,
        ))
}

/// A frame of the scheduler is the due steps chained in order.
pub open spec fn step_chain_ok<M: ProbabilityModel>(
    model: M,
    chain: Seq<Simulation>,
    pre: Simulation,
    post: Simulation,
    steps: int,
    mode: SimulationMode,
) -> bool {
    &&& chain.len() == steps + 1
    &&& chain[0] == pre
    &&& chain[steps] == post
    &&& (forall|j: int|
        0 <= j < steps ==> #[trigger] step_rel(model, chain[j], chain[j + 1], mode))
}

/// A pickup transition out of a well-formed state lands in a well-formed
/// state.
proof fn lemma_pickup_wf(pre: Simulation, post: Simulation, a: usize)
    requires
        pre.wf(),
        a < pre.agents@.len(),
        Simulation::pickup_transition(pre, post, a as int),
    ensures
        post.wf(),
{
    let pos = pre.agents@[a as int].pos;
    let i = pre.board.cells@[pos@].item->Some_0;
    assert(pre.agent_ok(a as int));
    assert(pre.cell_ok(pos@));
    assert(pre.board.cells@[pos@].item == Some(i));
    assert(i < pre.items@.len());
    assert(pre.items@[i as int].loc matches ItemLocation::OnBoard(cc) && cc == pos@);
    assert(post.board.wf()) by {
        assert(post.board.cells@.len() == pre.board.cells@.len());
        assert forall|v: int, k: int|
            0 <= v < post.board.adj@.len() && 0 <= k < post.board.spec_adj(v).len() implies (
        #[trigger] post.board.spec_adj(v)[k]) < post.board.cells@.len() by {
            assert(post.board.spec_adj(v) == pre.board.spec_adj(v));
        }
    }
    assert(post.items_wf()) by {
        assert forall|j: int| 0 <= j < post.items@.len() implies #[trigger] post.item_ok(j) by {
            assert(pre.item_ok(j));
            if j == i {
                assert(post.items@[j].loc == ItemLocation::Carried(a as usize));
                assert(post.agents@[a as int].carried == Some(i));
            } else {
                assert(post.items@[j] == pre.items@[j]);
                match pre.items@[j].loc {
                    ItemLocation::OnBoard(c) => {
                        assert(pre.board.cells@[c as int].item matches Some(ii) && ii == j);
                        if c == pos@ {
                            assert(false);
                        }
                        assert(post.board.cells@[c as int] == pre.board.cells@[c as int]);
                    },
                    ItemLocation::Carried(a2) => {
                        assert(pre.agents@[a2 as int].carried matches Some(ii) && ii == j);
                        if a2 == a {
                            assert(pre.agents@[a as int].carried is None);
                            assert(false);
                        }
                        assert(post.agents@[a2 as int] == pre.agents@[a2 as int]);
                    },
                }
            }
        }
    }
    assert(post.cells_wf()) by {
        assert forall|c: int|
            0 <= c < post.board.cells@.len() implies #[trigger] post.cell_ok(c) by {
            assert(pre.cell_ok(c));
            if c != pos@ {
                assert(post.board.cells@[c] == pre.board.cells@[c]);
                if post.board.cells@[c].item is Some {
                    let j = post.board.cells@[c].item->Some_0;
                    assert(pre.items@[j as int].loc matches ItemLocation::OnBoard(cc) && cc == c);
                    if j == i {
                        assert(false);
                    }
                    assert(post.items@[j as int] == pre.items@[j as int]);
                }
            }
        }
    }
    assert(post.agents_wf()) by {
        assert forall|a2: int|
            0 <= a2 < post.agents@.len() implies #[trigger] post.agent_ok(a2) by {
            assert(pre.agent_ok(a2));
            if a2 == a {
                assert(post.agents@[a2].carried == Some(i));
                assert(post.items@[i as int].loc == ItemLocation::Carried(a as usize));
            } else {
                assert(post.agents@[a2] == pre.agents@[a2]);
                if pre.agents@[a2].carried is Some {
                    let j = pre.agents@[a2].carried->Some_0;
                    assert(pre.items@[j as int].loc matches ItemLocation::Carried(aa) && aa == a2);
                    if j == i {
                        assert(false);
                    }
                    assert(post.items@[j as int] == pre.items@[j as int]);
                }
            }
        }
    }
}

/// A drop transition out of a well-formed state lands in a well-formed
/// state.
proof fn lemma_drop_wf(pre: Simulation, post: Simulation, a: usize)
    requires
        pre.wf(),
        a < pre.agents@.len(),
        Simulation::drop_transition(pre, post, a as int),
    ensures
        post.wf(),
{
    let pos = pre.agents@[a as int].pos;
    let i = pre.agents@[a as int].carried->Some_0;
    assert(pre.agent_ok(a as int));
    assert(pre.agents@[a as int].carried == Some(i));
    assert(i < pre.items@.len());
    assert(pre.items@[i as int].loc matches ItemLocation::Carried(aa) && aa == a);
    assert(post.board.wf()) by {
        assert(post.board.cells@.len() == pre.board.cells@.len());
        assert forall|v: int, k: int|
            0 <= v < post.board.adj@.len() && 0 <= k < post.board.spec_adj(v).len() implies (
        #[trigger] post.board.spec_adj(v)[k]) < post.board.cells@.len() by {
            assert(post.board.spec_adj(v) == pre.board.spec_adj(v));
        }
    }
    assert(post.items_wf()) by {
        assert forall|j: int| 0 <= j < post.items@.len() implies #[trigger] post.item_ok(j) by {
            assert(pre.item_ok(j));
            if j == i {
                assert(post.items@[j].loc == ItemLocation::OnBoard(pos@ as usize));
                assert(post.board.cells@[pos@].item == Some(i));
                assert(pos@ as usize as int == pos@);
            } else {
                assert(post.items@[j] == pre.items@[j]);
                match pre.items@[j].loc {
                    ItemLocation::OnBoard(c) => {
                        assert(pre.board.cells@[c as int].item matches Some(ii) && ii == j);
                        if c == pos@ {
                            assert(pre.board.cells@[pos@].item is None);
                            assert(false);
                        }
                        assert(post.board.cells@[c as int] == pre.board.cells@[c as int]);
                    },
                    ItemLocation::Carried(a2) => {
                        assert(pre.agents@[a2 as int].carried matches Some(ii) && ii == j);
                        if a2 == a {
                            assert(false);
                        }
                        assert(post.agents@[a2 as int] == pre.agents@[a2 as int]);
                    },
                }
            }
        }
    }
    assert(post.cells_wf()) by {
        assert forall|c: int|
            0 <= c < post.board.cells@.len() implies #[trigger] post.cell_ok(c) by {
            assert(pre.cell_ok(c));
            if c == pos@ {
                assert(post.board.cells@[c].item == Some(i));
                assert(post.items@[i as int].loc == ItemLocation::OnBoard(pos@ as usize));
            } else {
                assert(post.board.cells@[c] == pre.board.cells@[c]);
                if post.board.cells@[c].item is Some {
                    let j = post.board.cells@[c].item->Some_0;
                    assert(pre.items@[j as int].loc matches ItemLocation::OnBoard(cc) && cc == c);
                    if j == i {
                        assert(false);
                    }
                    assert(post.items@[j as int] == pre.items@[j as int]);
                }
            }
        }
    }
    assert(post.agents_wf()) by {
        assert forall|a2: int|
            0 <= a2 < post.agents@.len() implies #[trigger] post.agent_ok(a2) by {
            assert(pre.agent_ok(a2));
            if a2 == a {
                assert(post.agents@[a2].carried is None);
            } else {
                assert(post.agents@[a2] == pre.agents@[a2]);
                if pre.agents@[a2].carried is Some {
                    let j = pre.agents@[a2].carried->Some_0;
                    assert(pre.items@[j as int].loc matches ItemLocation::Carried(aa) && aa == a2);
                    if j == i {
                        assert(false);
                    }
                    assert(post.items@[j as int] == pre.items@[j as int]);
                }
            }
        }
    }
}


/// Two states with the same board, items and carried hands — differing only
/// in agent positions that still point at real cells — are equally
/// well-formed.
proof fn lemma_same_stores_wf(pre: Simulation, post: Simulation)
    requires
        pre.wf(),
        post.board.adj@ == pre.board.adj@,
        post.board.cells@ == pre.board.cells@,
        post.items@ == pre.items@,
        post.metric == pre.metric,
        post.agents@.len() == pre.agents@.len(),
        forall|a: int|
            0 <= a < post.agents@.len() ==> (#[trigger] post.agents@[a]).carried
                == pre.agents@[a].carried,
        forall|a: int|
            0 <= a < post.agents@.len() ==> (#[trigger] post.agents@[a]).pos@
                < post.board.cells@.len(),
    ensures
        post.wf(),
{
    assert(post.board.wf()) by {
        assert forall|v: int, k: int|
            0 <= v < post.board.adj@.len() && 0 <= k < post.board.spec_adj(v).len() implies (
        #[trigger] post.board.spec_adj(v)[k]) < post.board.cells@.len() by {
            assert(post.board.spec_adj(v) == pre.board.spec_adj(v));
        }
    }
    assert(post.items_wf()) by {
        assert forall|i: int| 0 <= i < post.items@.len() implies #[trigger] post.item_ok(i) by {
            assert(pre.item_ok(i));
            assert(post.items@[i] == pre.items@[i]);
            match pre.items@[i].loc {
                ItemLocation::OnBoard(c) => {
                    assert(post.board.cells@[c as int] == pre.board.cells@[c as int]);
                },
                ItemLocation::Carried(a2) => {
                    assert(post.agents@[a2 as int].carried == pre.agents@[a2 as int].carried);
                },
            }
        }
    }
    assert(post.cells_wf()) by {
        assert forall|c: int|
            0 <= c < post.board.cells@.len() implies #[trigger] post.cell_ok(c) by {
            assert(pre.cell_ok(c));
            assert(post.board.cells@[c] == pre.board.cells@[c]);
        }
    }
    assert(post.agents_wf()) by {
        assert forall|a: int|
            0 <= a < post.agents@.len() implies #[trigger] post.agent_ok(a) by {
            assert(pre.agent_ok(a));
            assert(post.agents@[a].carried == pre.agents@[a].carried);
        }
    }
}

} // verus!
