//! The temporal-difference learner: a value table, an epsilon-greedy policy
//! and the TD(0) learning step, together with the narrow contract through
//! which a game loop drives any player.

use crate::game::{
    has_line, lemma_avail_wf, mv_ok, mv_pos, spec_avail, spec_winner, Board, Cell, PlayerId,
};
use crate::rng::random_below;
use crate::table::ValueTable;
use crate::value::{spec_td, td_update, DEFAULT_ALPHA, HALF, SCALE};
use vstd::prelude::*;

verus! {

broadcast use crate::game::lemma_board_view_len;

/// The default estimate of a grid seen for the first time: a grid already
/// won by `me` scores one whole unit, one won by the opponent zero, and
/// anything else, draws included, one half.
pub open spec fn spec_default(s: Seq<Cell>, me: PlayerId) -> u64 {
    if spec_winner(s) == Some(me) {
        SCALE
    } else if spec_winner(s) == Some(me.spec_next()) {
        0u64
    } else {
        HALF
    }
}

/// The estimate an agent's table gives a grid: the stored value when
/// present, else the default for a fresh grid.
pub open spec fn spec_value_of(m: Map<Seq<Cell>, u64>, s: Seq<Cell>, me: PlayerId) -> u64 {
    if m.contains_key(s) {
        m[s]
    } else {
        spec_default(s, me)
    }
}

/// The grid after `me` marks the cell the move names.
pub open spec fn spec_candidate(s: Seq<Cell>, mv: (usize, usize), me: PlayerId) -> Seq<Cell> {
    s.update(mv_pos(mv), me.spec_cell())
}

/// The best estimate among the candidate grids of the given moves, or -1
/// when there is no move.
pub open spec fn spec_best(
    m: Map<Seq<Cell>, u64>,
    s: Seq<Cell>,
    me: PlayerId,
    moves: Seq<(usize, usize)>,
) -> int
    decreases moves.len(),
{
    if moves.len() == 0 {
        -1
    } else {
        let h = spec_value_of(m, spec_candidate(s, moves[0], me), me) as int;
        let t = spec_best(m, s, me, moves.drop_first());
        if h >= t {
            h
        } else {
            t
        }
    }
}

/// A scan over `moves` that keeps the move whose candidate estimate is
/// strictly greater than everything seen so far, starting from `best` with
/// estimate `bestv`.
pub open spec fn spec_greedy_from(
    m: Map<Seq<Cell>, u64>,
    s: Seq<Cell>,
    me: PlayerId,
    moves: Seq<(usize, usize)>,
    best: (usize, usize),
    bestv: int,
) -> (usize, usize)
    decreases moves.len(),
{
    if moves.len() == 0 {
        best
    } else {
        let h = spec_value_of(m, spec_candidate(s, moves[0], me), me) as int;
        if h > bestv {
            spec_greedy_from(m, s, me, moves.drop_first(), moves[0], h)
        } else {
            spec_greedy_from(m, s, me, moves.drop_first(), best, bestv)
        }
    }
}

/// The move a greedy row-major scan picks: the first move whose candidate
/// estimate equals the maximum, since only a strictly greater estimate
/// displaces the incumbent.
pub open spec fn spec_greedy(
    m: Map<Seq<Cell>, u64>,
    s: Seq<Cell>,
    me: PlayerId,
    moves: Seq<(usize, usize)>,
) -> (usize, usize)
    recommends
        moves.len() > 0,
{
    spec_greedy_from(
        m,
        s,
        me,
        moves.drop_first(),
        moves[0],
        spec_value_of(m, spec_candidate(s, moves[0], me), me) as int,
    )
}

/// How one action selection changes a table: the map `m1` extends `m0` with
/// a default-valued entry for the observed grid and for every candidate
/// successor grid not already present, and with nothing else.
pub open spec fn spec_explored(
    m0: Map<Seq<Cell>, u64>,
    m1: Map<Seq<Cell>, u64>,
    s: Seq<Cell>,
    me: PlayerId,
) -> bool {
    &&& forall|k: Seq<Cell>| #[trigger] m0.contains_key(k) ==> m1.contains_key(k) && m1[k] == m0[k]
    &&& m1.contains_key(s) && m1[s] == spec_value_of(m0, s, me)
    &&& forall|i: int|
        0 <= i < spec_avail(s).len() ==> {
            let c = spec_candidate(s, #[trigger] spec_avail(s)[i], me);
            m1.contains_key(c) && m1[c] == spec_value_of(m0, c, me)
        }
    &&& forall|k: Seq<Cell>|
        #[trigger] m1.contains_key(k) ==> m0.contains_key(k) || k == s || exists|i: int|
            0 <= i < spec_avail(s).len() && k == spec_candidate(s, #[trigger] spec_avail(s)[i], me)
}

/// As `spec_explored`, but for the candidate grids alone: what one pass of
/// move evaluation adds to the table.
spec fn cand_updates(
    m0: Map<Seq<Cell>, u64>,
    m1: Map<Seq<Cell>, u64>,
    s: Seq<Cell>,
    me: PlayerId,
    moves: Seq<(usize, usize)>,
) -> bool {
    &&& forall|k: Seq<Cell>| #[trigger] m0.contains_key(k) ==> m1.contains_key(k) && m1[k] == m0[k]
    &&& forall|i: int|
        0 <= i < moves.len() ==> {
            let c = spec_candidate(s, #[trigger] moves[i], me);
            m1.contains_key(c) && m1[c] == spec_value_of(m0, c, me)
        }
    &&& forall|k: Seq<Cell>|
        #[trigger] m1.contains_key(k) ==> m0.contains_key(k) || exists|i: int|
            0 <= i < moves.len() && k == spec_candidate(s, #[trigger] moves[i], me)
}

/// Marking an empty cell changes the grid.
proof fn lemma_candidate_ne_state(s: Seq<Cell>, mv: (usize, usize), me: PlayerId)
    requires
        s.len() == 9,
        mv_ok(s, mv),
    ensures
        spec_candidate(s, mv, me) != s,
{
    assert(spec_candidate(s, mv, me)[mv_pos(mv)] != s[mv_pos(mv)]);
}

/// Marking two different empty cells yields two different grids.
proof fn lemma_candidates_distinct(s: Seq<Cell>, mv1: (usize, usize), mv2: (usize, usize), me: PlayerId)
    requires
        s.len() == 9,
        mv_ok(s, mv1),
        mv_ok(s, mv2),
        mv1 != mv2,
    ensures
        spec_candidate(s, mv1, me) != spec_candidate(s, mv2, me),
{
    assert(mv_pos(mv1) != mv_pos(mv2));
    assert(spec_candidate(s, mv1, me)[mv_pos(mv2)] == s[mv_pos(mv2)]);
    assert(spec_candidate(s, mv2, me)[mv_pos(mv2)] == me.spec_cell());
}

/// Appending a move raises the best estimate to that move's candidate
/// estimate exactly when it beats everything before it.
proof fn lemma_best_push(
    m: Map<Seq<Cell>, u64>,
    s: Seq<Cell>,
    me: PlayerId,
    moves: Seq<(usize, usize)>,
    mv: (usize, usize),
)
    ensures
        spec_best(m, s, me, moves.push(mv)) == if spec_value_of(m, spec_candidate(s, mv, me), me)
            as int >= spec_best(m, s, me, moves) {
            spec_value_of(m, spec_candidate(s, mv, me), me) as int
        } else {
            spec_best(m, s, me, moves)
        },
    decreases moves.len(),
{
    if moves.len() == 0 {
        assert(moves.push(mv)[0] == mv);
        assert(moves.push(mv).drop_first() =~= Seq::<(usize, usize)>::empty());
        assert(spec_best(m, s, me, Seq::<(usize, usize)>::empty()) == -1);
        assert(spec_best(m, s, me, moves.push(mv).drop_first()) == -1);
        assert(spec_best(m, s, me, moves.push(mv)) == spec_value_of(
            m,
            spec_candidate(s, mv, me),
            me,
        ) as int);
    } else {
        assert(moves.push(mv)[0] == moves[0]);
        assert(moves.push(mv).drop_first() =~= moves.drop_first().push(mv));
        lemma_best_push(m, s, me, moves.drop_first(), mv);
    }
}

/// A nonempty list of moves has one whose candidate estimate is the best.
proof fn lemma_best_achieved(
    m: Map<Seq<Cell>, u64>,
    s: Seq<Cell>,
    me: PlayerId,
    moves: Seq<(usize, usize)>,
)
    requires
        moves.len() > 0,
    ensures
        exists|k: int|
            0 <= k < moves.len() && spec_value_of(m, spec_candidate(s, #[trigger] moves[k], me), me)
                as int == spec_best(m, s, me, moves),
    decreases moves.len(),
{
    let h = spec_value_of(m, spec_candidate(s, moves[0], me), me) as int;
    if moves.len() == 1 {
        assert(moves.drop_first() =~= Seq::<(usize, usize)>::empty());
        assert(spec_best(m, s, me, moves.drop_first()) == -1);
        assert(spec_best(m, s, me, moves) == h);
    } else if h >= spec_best(m, s, me, moves.drop_first()) {
        assert(spec_best(m, s, me, moves) == h);
    } else {
        lemma_best_achieved(m, s, me, moves.drop_first());
        let k = choose|k: int|
            0 <= k < moves.drop_first().len() && spec_value_of(
                m,
                spec_candidate(s, moves.drop_first()[k], me),
                me,
            ) as int == spec_best(m, s, me, moves.drop_first());
        assert(moves[k + 1] == moves.drop_first()[k]);
    }
}

/// Two tables that agree on every candidate grid of `moves` agree on the
/// best estimate.
proof fn lemma_best_same(
    m1: Map<Seq<Cell>, u64>,
    m2: Map<Seq<Cell>, u64>,
    s: Seq<Cell>,
    me: PlayerId,
    moves: Seq<(usize, usize)>,
)
    requires
        forall|i: int|
            0 <= i < moves.len() ==> spec_value_of(
                m1,
                spec_candidate(s, #[trigger] moves[i], me),
                me,
            ) == spec_value_of(m2, spec_candidate(s, moves[i], me), me),
    ensures
        spec_best(m1, s, me, moves) == spec_best(m2, s, me, moves),
    decreases moves.len(),
{
    if moves.len() > 0 {
        assert forall|i: int| 0 <= i < moves.drop_first().len() implies spec_value_of(
            m1,
            spec_candidate(s, #[trigger] moves.drop_first()[i], me),
            me,
        ) == spec_value_of(m2, spec_candidate(s, moves.drop_first()[i], me), me) by {
            assert(moves.drop_first()[i] == moves[i + 1]);
        }
        lemma_best_same(m1, m2, s, me, moves.drop_first());
    }
}

/// Two tables that agree on every candidate grid of `moves` drive a greedy
/// scan to the same move.
proof fn lemma_greedy_from_same(
    m1: Map<Seq<Cell>, u64>,
    m2: Map<Seq<Cell>, u64>,
    s: Seq<Cell>,
    me: PlayerId,
    moves: Seq<(usize, usize)>,
    best: (usize, usize),
    bestv: int,
)
    requires
        forall|i: int|
            0 <= i < moves.len() ==> spec_value_of(
                m1,
                spec_candidate(s, #[trigger] moves[i], me),
                me,
            ) == spec_value_of(m2, spec_candidate(s, moves[i], me), me),
    ensures
        spec_greedy_from(m1, s, me, moves, best, bestv) == spec_greedy_from(
            m2,
            s,
            me,
            moves,
            best,
            bestv,
        ),
    decreases moves.len(),
{
    if moves.len() > 0 {
        assert forall|i: int| 0 <= i < moves.drop_first().len() implies spec_value_of(
            m1,
            spec_candidate(s, #[trigger] moves.drop_first()[i], me),
            me,
        ) == spec_value_of(m2, spec_candidate(s, moves.drop_first()[i], me), me) by {
            assert(moves.drop_first()[i] == moves[i + 1]);
        }
        let h = spec_value_of(m1, spec_candidate(s, moves[0], me), me) as int;
        if h > bestv {
            lemma_greedy_from_same(m1, m2, s, me, moves.drop_first(), moves[0], h);
        } else {
            lemma_greedy_from_same(m1, m2, s, me, moves.drop_first(), best, bestv);
        }
    }
}

/// Two tables that agree on every candidate grid agree on the greedy move.
proof fn lemma_greedy_same(
    m1: Map<Seq<Cell>, u64>,
    m2: Map<Seq<Cell>, u64>,
    s: Seq<Cell>,
    me: PlayerId,
    moves: Seq<(usize, usize)>,
)
    requires
        moves.len() > 0,
        forall|i: int|
            0 <= i < moves.len() ==> spec_value_of(
                m1,
                spec_candidate(s, #[trigger] moves[i], me),
                me,
            ) == spec_value_of(m2, spec_candidate(s, moves[i], me), me),
    ensures
        spec_greedy(m1, s, me, moves) == spec_greedy(m2, s, me, moves),
{
    assert forall|i: int| 0 <= i < moves.drop_first().len() implies spec_value_of(
        m1,
        spec_candidate(s, #[trigger] moves.drop_first()[i], me),
        me,
    ) == spec_value_of(m2, spec_candidate(s, moves.drop_first()[i], me), me) by {
        assert(moves.drop_first()[i] == moves[i + 1]);
    }
    lemma_greedy_from_same(
        m1,
        m2,
        s,
        me,
        moves.drop_first(),
        moves[0],
        spec_value_of(m1, spec_candidate(s, moves[0], me), me) as int,
    );
}

/// The temporal-difference learner: one value table owned exclusively by
/// this player, a fixed exploration probability `epsilon` and a fixed step
/// size `alpha`, both in fixed point, and the identity of the mark it plays.
pub struct RLPlayer {
    player_id: PlayerId,
    estimates: ValueTable,
    epsilon: u64,
    alpha: u64,
}

impl RLPlayer {
    /// Which player this agent plays as.
    pub closed spec fn id(self) -> PlayerId {
        self.player_id
    }

    /// The exploration probability, in millionths.
    pub closed spec fn spec_epsilon(self) -> u64 {
        self.epsilon
    }

    /// The TD step size, in millionths.
    pub closed spec fn spec_alpha(self) -> u64 {
        self.alpha
    }

    /// The agent's table as a map from grid contents to stored value.
    pub closed spec fn estimates_map(self) -> Map<Seq<Cell>, u64> {
        self.estimates.as_map()
    }

    /// The agent's table entries in insertion order.
    pub closed spec fn estimates_seq(self) -> Seq<(Board, u64)> {
        self.estimates.entries_seq()
    }

    /// Well-formed: the table's keys are distinct and its values in range,
    /// `epsilon` is a probability, and `alpha` a positive step size.
    pub closed spec fn wf(self) -> bool {
        &&& self.estimates.wf()
        &&& self.epsilon <= SCALE
        &&& 1 <= self.alpha <= SCALE
    }

    /// A fresh agent with an empty table and the default step size.
    pub fn new(id: PlayerId, eps: u64) -> (p: RLPlayer)
        requires
            eps <= SCALE,
        ensures
            p.wf(),
            p.id() == id,
            p.spec_epsilon() == eps,
            p.spec_alpha() == DEFAULT_ALPHA,
            p.estimates_map() == Map::<Seq<Cell>, u64>::empty(),
            p.estimates_seq() == Seq::<(Board, u64)>::empty(),
    {
        RLPlayer {
            player_id: id,
            estimates: ValueTable::new(),
            epsilon: eps,
            alpha: DEFAULT_ALPHA,
        }
    }

    /// An agent assembled from already-validated parts, as the persistence
    /// loader produces them.
    pub(crate) fn assemble(id: PlayerId, estimates: ValueTable, eps: u64, alpha: u64) -> (p:
        RLPlayer)
        requires
            estimates.wf(),
            eps <= SCALE,
            1 <= alpha <= SCALE,
        ensures
            p.wf(),
            p.id() == id,
            p.spec_epsilon() == eps,
            p.spec_alpha() == alpha,
            p.estimates_map() == estimates.as_map(),
            p.estimates_seq() == estimates.entries_seq(),
    {
        RLPlayer { player_id: id, estimates, epsilon: eps, alpha }
    }

    /// Which player this agent plays as.
    pub fn player_id(&self) -> (r: PlayerId)
        ensures
            r == self.id(),
    {
        self.player_id
    }

    /// The exploration probability, in millionths.
    pub fn epsilon(&self) -> (r: u64)
        ensures
            r == self.spec_epsilon(),
    {
        self.epsilon
    }

    /// The TD step size, in millionths.
    pub fn alpha(&self) -> (r: u64)
        ensures
            r == self.spec_alpha(),
    {
        self.alpha
    }

    /// The stored pairs of the agent's table, in insertion order.
    pub fn get_estimates(&self) -> (r: Vec<(Board, u64)>)
        ensures
            r@ == self.estimates_seq(),
    {
        let entries = self.estimates.entries();
        let n = entries.len();
        let mut out: Vec<(Board, u64)> = Vec::new();
        let mut i: usize = 0;
        while i < n
            invariant
                n == entries@.len(),
                entries@ == self.estimates.entries_seq(),
                0 <= i <= n,
                out@ == entries@.take(i as int),
            decreases n - i,
        {
            out.push(entries[i]);
            proof {
                assert(out@ =~= entries@.take(i as int + 1));
            }
            i += 1;
        }
        proof {
            assert(entries@.take(n as int) =~= entries@);
        }
        out
    }

    /// The default estimate for a grid this agent has never stored.
    fn default_value(&self, b: &Board) -> (r: u64)
        ensures
            r == spec_default(b@, self.id()),
            r <= SCALE,
    {
        if b.is_won_by(self.player_id) {
            SCALE
        } else if b.is_won_by(self.player_id.next()) {
            0
        } else {
            HALF
        }
    }

    /// The estimate of a grid and whether it is stored, without inserting.
    fn lookup_estimate(&self, state: &Board) -> (r: (u64, bool))
        requires
            self.wf(),
        ensures
            r.0 == spec_value_of(self.estimates_map(), state@, self.id()),
            r.1 == self.estimates_map().contains_key(state@),
            r.0 <= SCALE,
    {
        match self.estimates.lookup(state) {
            Some(v) => (v, true),
            None => (self.default_value(state), false),
        }
    }

    /// The estimate of a grid, without inserting.
    fn estimate(&self, state: &Board) -> (r: u64)
        requires
            self.wf(),
        ensures
            r == spec_value_of(self.estimates_map(), state@, self.id()),
            r <= SCALE,
    {
        self.lookup_estimate(state).0
    }

    /// The estimate of a grid, stored into the table first if absent, so
    /// that every grid the agent evaluates becomes an entry.
    fn estimate_and_add(&mut self, state: &Board) -> (r: u64)
        requires
            old(self).wf(),
        ensures
            final(self).wf(),
            final(self).id() == old(self).id(),
            final(self).spec_epsilon() == old(self).spec_epsilon(),
            final(self).spec_alpha() == old(self).spec_alpha(),
            r == spec_value_of(old(self).estimates_map(), state@, old(self).id()),
            r <= SCALE,
            final(self).estimates_map() == old(self).estimates_map().insert(state@, r),
            final(self).estimates_seq() == if old(self).estimates_map().contains_key(state@) {
                old(self).estimates_seq()
            } else {
                old(self).estimates_seq().push((*state, r))
            },
            old(self).estimates_seq().is_prefix_of(final(self).estimates_seq()),
    {
        let d = self.default_value(state);
        let r = self.estimates.get_or_init(state, d);
        proof {
            assert(old(self).estimates_seq().is_prefix_of(self.estimates_seq())) by {
                let es = old(self).estimates_seq();
                assert(self.estimates_seq().subrange(0, es.len() as int) =~= es);
            }
        }
        r
    }

    /// The greedy move: scan the available moves in row-major order,
    /// evaluating (and lazily storing) each candidate grid, and keep the
    /// first move whose estimate is strictly greater than every estimate
    /// seen before it.
    fn greedy_action(&mut self, state: &Board) -> (r: Option<(usize, usize)>)
        requires
            old(self).wf(),
        ensures
            final(self).wf(),
            final(self).id() == old(self).id(),
            final(self).spec_epsilon() == old(self).spec_epsilon(),
            final(self).spec_alpha() == old(self).spec_alpha(),
            cand_updates(
                old(self).estimates_map(),
                final(self).estimates_map(),
                state@,
                old(self).id(),
                spec_avail(state@),
            ),
            old(self).estimates_seq().is_prefix_of(final(self).estimates_seq()),
            r is None <==> spec_avail(state@).len() == 0,
            r matches Some(mv) ==> {
                &&& mv == spec_greedy(
                    old(self).estimates_map(),
                    state@,
                    old(self).id(),
                    spec_avail(state@),
                )
                &&& spec_avail(state@).contains(mv)
                &&& mv_ok(state@, mv)
                &&& spec_value_of(
                    old(self).estimates_map(),
                    spec_candidate(state@, mv, old(self).id()),
                    old(self).id(),
                ) as int == spec_best(
                    old(self).estimates_map(),
                    state@,
                    old(self).id(),
                    spec_avail(state@),
                )
            },
    {
        let ghost m0 = self.estimates_map();
        let ghost es0 = self.estimates_seq();
        let ghost me = self.id();
        let ghost s = state@;
        let ghost eps0 = self.spec_epsilon();
        let ghost alpha0 = self.spec_alpha();
        let choices = state.available_choices();
        proof {
            lemma_avail_wf(s, 9);
        }
        let n = choices.len();
        if n == 0 {
            return None;
        }
        let mv0 = choices[0];
        let mut cand = *state;
        cand.set_cell(mv0.0, mv0.1, self.player_id.as_cell());
        proof {
            assert(cand@ == spec_candidate(s, mv0, me));
        }
        let est0 = self.estimate_and_add(&cand);
        let mut best_mv = mv0;
        let mut best_v = est0;
        let mut i: usize = 1;
        proof {
            assert(choices@.take(1)[0] == choices@[0]);
            assert(choices@.take(1).drop_first() =~= Seq::<(usize, usize)>::empty());
            assert(spec_best(m0, s, me, choices@.take(1).drop_first()) == -1);
            assert(spec_best(m0, s, me, choices@.take(1)) == est0 as int);
            if m0.contains_key(cand@) {
                assert(self.estimates_map() =~= m0);
            }
            assert(cand_updates(m0, self.estimates_map(), s, me, choices@.take(1)));
            assert(choices@.skip(1) =~= choices@.drop_first());
        }
        while i < n
            invariant
                self.wf(),
                self.id() == me,
                self.spec_epsilon() == eps0,
                self.spec_alpha() == alpha0,
                s.len() == 9,
                choices@ == spec_avail(s),
                forall|k: int| 0 <= k < choices@.len() ==> mv_ok(s, #[trigger] choices@[k]),
                forall|k1: int, k2: int|
                    0 <= k1 < k2 < choices@.len() ==> mv_pos(#[trigger] choices@[k1]) < mv_pos(
                        #[trigger] choices@[k2],
                    ),
                n == choices@.len(),
                1 <= i <= n,
                state@ == s,
                cand_updates(m0, self.estimates_map(), s, me, choices@.take(i as int)),
                es0.is_prefix_of(self.estimates_seq()),
                spec_avail(s).contains(best_mv),
                mv_ok(s, best_mv),
                best_v == spec_value_of(m0, spec_candidate(s, best_mv, me), me),
                best_v as int == spec_best(m0, s, me, choices@.take(i as int)),
                spec_greedy_from(m0, s, me, choices@.skip(i as int), best_mv, best_v as int)
                    == spec_greedy(m0, s, me, choices@),
            decreases n - i,
        {
            let mvi = choices[i];
            let mut cand_i = *state;
            cand_i.set_cell(mvi.0, mvi.1, self.player_id.as_cell());
            proof {
                assert(cand_i@ == spec_candidate(s, mvi, me));
            }
            let ghost mi = self.estimates_map();
            let est = self.estimate_and_add(&cand_i);
            proof {
                // The running table differs from the starting one only at
                // earlier candidates, which name other cells, so this
                // estimate is the one the starting table gives.
                if mi.contains_key(cand_i@) {
                    if !m0.contains_key(cand_i@) {
                        let j = choose|j: int|
                            0 <= j < choices@.take(i as int).len() && cand_i@ == spec_candidate(
                                s,
                                choices@.take(i as int)[j],
                                me,
                            );
                        assert(choices@.take(i as int)[j] == choices@[j]);
                        lemma_candidates_distinct(s, choices@[j], mvi, me);
                        assert(false);
                    }
                }
                assert(est == spec_value_of(m0, cand_i@, me));
                assert(choices@.take(i as int + 1) =~= choices@.take(i as int).push(mvi));
                lemma_best_push(m0, s, me, choices@.take(i as int), mvi);
                assert(choices@.skip(i as int)[0] == choices@[i as int]);
                assert(choices@.skip(i as int).drop_first() =~= choices@.skip(i as int + 1));
            }
            if est > best_v {
                best_v = est;
                best_mv = mvi;
            }
            proof {
                // the new table adds exactly this candidate
                assert forall|k: int|
                    0 <= k < choices@.take(i as int + 1).len() implies {
                        let c = spec_candidate(s, #[trigger] choices@.take(i as int + 1)[k], me);
                        self.estimates_map().contains_key(c) && self.estimates_map()[c]
                            == spec_value_of(m0, c, me)
                    } by {
                    assert(choices@.take(i as int + 1)[k] == choices@[k]);
                    if k < i as int {
                        assert(choices@.take(i as int)[k] == choices@[k]);
                        if spec_candidate(s, choices@[k], me) == cand_i@ && choices@[k] != mvi {
                            lemma_candidates_distinct(s, choices@[k], mvi, me);
                        }
                    }
                }
                assert forall|k: Seq<Cell>|
                    #[trigger] self.estimates_map().contains_key(k) implies m0.contains_key(k)
                        || exists|j: int|
                        0 <= j < choices@.take(i as int + 1).len() && k == spec_candidate(
                            s,
                            #[trigger] choices@.take(i as int + 1)[j],
                            me,
                        ) by {
                    if !m0.contains_key(k) {
                        if k == cand_i@ {
                            assert(choices@.take(i as int + 1)[i as int] == mvi);
                        } else {
                            assert(mi.contains_key(k));
                            let j = choose|j: int|
                                0 <= j < choices@.take(i as int).len() && k == spec_candidate(
                                    s,
                                    choices@.take(i as int)[j],
                                    me,
                                );
                            assert(choices@.take(i as int + 1)[j] == choices@.take(i as int)[j]);
                        }
                    }
                }
                assert(cand_updates(m0, self.estimates_map(), s, me, choices@.take(i as int + 1)));
            }
            i += 1;
        }
        proof {
            assert(choices@.take(n as int) =~= choices@);
            assert(choices@.skip(n as int) =~= Seq::<(usize, usize)>::empty());
            assert(spec_greedy_from(
                m0,
                s,
                me,
                choices@.skip(n as int),
                best_mv,
                best_v as int,
            ) == best_mv);
        }
        Some(best_mv)
    }

    /// The exploratory move: evaluate (and lazily store) every available
    /// move's candidate grid, and unless every candidate shares one
    /// estimate, keep only those achieving the maximum; then draw uniformly
    /// at random from what is kept.
    #[verifier::rlimit(60)]
    fn exploratory_action(&mut self, state: &Board) -> (r: Option<(usize, usize)>)
        requires
            old(self).wf(),
            spec_avail(state@).len() > 0,
        ensures
            final(self).wf(),
            final(self).id() == old(self).id(),
            final(self).spec_epsilon() == old(self).spec_epsilon(),
            final(self).spec_alpha() == old(self).spec_alpha(),
            cand_updates(
                old(self).estimates_map(),
                final(self).estimates_map(),
                state@,
                old(self).id(),
                spec_avail(state@),
            ),
            old(self).estimates_seq().is_prefix_of(final(self).estimates_seq()),
            r is Some,
            r matches Some(mv) ==> {
                &&& spec_avail(state@).contains(mv)
                &&& mv_ok(state@, mv)
                &&& spec_value_of(
                    old(self).estimates_map(),
                    spec_candidate(state@, mv, old(self).id()),
                    old(self).id(),
                ) as int == spec_best(
                    old(self).estimates_map(),
                    state@,
                    old(self).id(),
                    spec_avail(state@),
                )
            },
    {
        let ghost m0 = self.estimates_map();
        let ghost es0 = self.estimates_seq();
        let ghost me = self.id();
        let ghost s = state@;
        let ghost eps0 = self.spec_epsilon();
        let ghost alpha0 = self.spec_alpha();
        let choices = state.available_choices();
        proof {
            lemma_avail_wf(s, 9);
        }
        let n = choices.len();
        let mut pairs: Vec<(u64, (usize, usize))> = Vec::new();
        let mut i: usize = 0;
        proof {
            assert(cand_updates(m0, self.estimates_map(), s, me, choices@.take(0)));
        }
        while i < n
            invariant
                self.wf(),
                self.id() == me,
                self.spec_epsilon() == eps0,
                self.spec_alpha() == alpha0,
                s.len() == 9,
                choices@ == spec_avail(s),
                forall|k: int| 0 <= k < choices@.len() ==> mv_ok(s, #[trigger] choices@[k]),
                forall|k1: int, k2: int|
                    0 <= k1 < k2 < choices@.len() ==> mv_pos(#[trigger] choices@[k1]) < mv_pos(
                        #[trigger] choices@[k2],
                    ),
                n == choices@.len(),
                0 <= i <= n,
                state@ == s,
                pairs@.len() == i,
                forall|k: int|
                    0 <= k < i ==> #[trigger] pairs@[k] == (
                        spec_value_of(m0, spec_candidate(s, choices@[k], me), me),
                        choices@[k],
                    ),
                cand_updates(m0, self.estimates_map(), s, me, choices@.take(i as int)),
                es0.is_prefix_of(self.estimates_seq()),
            decreases n - i,
        {
            let mvi = choices[i];
            let mut cand_i = *state;
            cand_i.set_cell(mvi.0, mvi.1, self.player_id.as_cell());
            proof {
                assert(cand_i@ == spec_candidate(s, mvi, me));
            }
            let ghost mi = self.estimates_map();
            let est = self.estimate_and_add(&cand_i);
            pairs.push((est, mvi));
            proof {
                if mi.contains_key(cand_i@) {
                    if !m0.contains_key(cand_i@) {
                        let j = choose|j: int|
                            0 <= j < choices@.take(i as int).len() && cand_i@ == spec_candidate(
                                s,
                                choices@.take(i as int)[j],
                                me,
                            );
                        assert(choices@.take(i as int)[j] == choices@[j]);
                        lemma_candidates_distinct(s, choices@[j], mvi, me);
                        assert(false);
                    }
                }
                assert(est == spec_value_of(m0, cand_i@, me));
                assert forall|k: int|
                    0 <= k < choices@.take(i as int + 1).len() implies {
                        let c = spec_candidate(s, #[trigger] choices@.take(i as int + 1)[k], me);
                        self.estimates_map().contains_key(c) && self.estimates_map()[c]
                            == spec_value_of(m0, c, me)
                    } by {
                    assert(choices@.take(i as int + 1)[k] == choices@[k]);
                    if k < i as int {
                        assert(choices@.take(i as int)[k] == choices@[k]);
                        if spec_candidate(s, choices@[k], me) == cand_i@ && choices@[k] != mvi {
                            lemma_candidates_distinct(s, choices@[k], mvi, me);
                        }
                    }
                }
                assert forall|k: Seq<Cell>|
                    #[trigger] self.estimates_map().contains_key(k) implies m0.contains_key(k)
                        || exists|j: int|
                        0 <= j < choices@.take(i as int + 1).len() && k == spec_candidate(
                            s,
                            #[trigger] choices@.take(i as int + 1)[j],
                            me,
                        ) by {
                    if !m0.contains_key(k) {
                        if k == cand_i@ {
                            assert(choices@.take(i as int + 1)[i as int] == mvi);
                        } else {
                            assert(mi.contains_key(k));
                            let j = choose|j: int|
                                0 <= j < choices@.take(i as int).len() && k == spec_candidate(
                                    s,
                                    choices@.take(i as int)[j],
                                    me,
                                );
                            assert(choices@.take(i as int + 1)[j] == choices@.take(i as int)[j]);
                        }
                    }
                }
                assert(cand_updates(m0, self.estimates_map(), s, me, choices@.take(i as int + 1)));
            }
            i += 1;
        }
        proof {
            assert(choices@.take(n as int) =~= choices@);
        }
        // the maximum estimate, and whether all candidates share one value
        let mut max_v = pairs[0].0;
        let mut all_same = true;
        let mut j: usize = 1;
        proof {
            assert(choices@.take(1)[0] == choices@[0]);
            assert(choices@.take(1).drop_first() =~= Seq::<(usize, usize)>::empty());
            assert(spec_best(m0, s, me, Seq::<(usize, usize)>::empty()) == -1);
            assert(spec_best(m0, s, me, choices@.take(1).drop_first()) == -1);
            assert(spec_best(m0, s, me, choices@.take(1)) == max_v as int);
        }
        while j < n
            invariant
                s.len() == 9,
                choices@ == spec_avail(s),
                n == choices@.len(),
                1 <= j <= n,
                n >= 1,
                pairs@.len() == n,
                forall|k: int|
                    0 <= k < n ==> #[trigger] pairs@[k] == (
                        spec_value_of(m0, spec_candidate(s, choices@[k], me), me),
                        choices@[k],
                    ),
                max_v as int == spec_best(m0, s, me, choices@.take(j as int)),
                all_same <==> (forall|k: int| 0 <= k < j ==> #[trigger] pairs@[k].0 == pairs@[0].0),
            decreases n - j,
        {
            proof {
                assert(choices@.take(j as int + 1) =~= choices@.take(j as int).push(choices@[j as int]));
                lemma_best_push(m0, s, me, choices@.take(j as int), choices@[j as int]);
            }
            if pairs[j].0 != pairs[0].0 {
                all_same = false;
            }
            if pairs[j].0 > max_v {
                max_v = pairs[j].0;
            }
            j += 1;
        }
        proof {
            assert(choices@.take(n as int) =~= choices@);
        }
        if !all_same {
            // keep only the moves achieving the maximum
            let mut bucket: Vec<(u64, (usize, usize))> = Vec::new();
            let mut t: usize = 0;
            while t < n
                invariant
                    s.len() == 9,
                    choices@ == spec_avail(s),
                    n == choices@.len(),
                    0 <= t <= n,
                    pairs@.len() == n,
                    forall|k: int|
                        0 <= k < n ==> #[trigger] pairs@[k] == (
                            spec_value_of(m0, spec_candidate(s, choices@[k], me), me),
                            choices@[k],
                        ),
                    forall|k: int|
                        0 <= k < bucket@.len() ==> (#[trigger] bucket@[k]).0 == max_v
                            && choices@.contains(bucket@[k].1) && spec_value_of(
                            m0,
                            spec_candidate(s, bucket@[k].1, me),
                            me,
                        ) == max_v,
                    (exists|k: int| 0 <= k < t && #[trigger] pairs@[k].0 == max_v)
                        ==> bucket@.len() >= 1,
                decreases n - t,
            {
                if pairs[t].0 == max_v {
                    bucket.push(pairs[t]);
                    proof {
                        assert(choices@[t as int] == choices@.index(t as int));
                        assert(choices@.contains(choices@[t as int]));
                    }
                }
                t += 1;
            }
            proof {
                lemma_best_achieved(m0, s, me, choices@);
                let k = choose|k: int|
                    0 <= k < choices@.len() && spec_value_of(
                        m0,
                        spec_candidate(s, choices@[k], me),
                        me,
                    ) as int == spec_best(m0, s, me, choices@);
                assert(pairs@[k].0 == max_v);
            }
            let k = random_below(bucket.len() as u64) as usize;
            let mv = bucket[k].1;
            proof {
                assert((bucket@[k as int]).0 == max_v);
                assert(choices@.contains(mv));
                let idx = choose|idx: int| 0 <= idx < choices@.len() && choices@[idx] == mv;
                assert(mv_ok(s, choices@[idx]));
            }
            Some(mv)
        } else {
            // every candidate shares one estimate, so the whole list is the
            // maximum bucket
            let k = random_below(pairs.len() as u64) as usize;
            let mv = pairs[k].1;
            proof {
                lemma_best_achieved(m0, s, me, choices@);
                let w = choose|w: int|
                    0 <= w < choices@.len() && spec_value_of(
                        m0,
                        spec_candidate(s, choices@[w], me),
                        me,
                    ) as int == spec_best(m0, s, me, choices@);
                assert(pairs@[w].0 == max_v);
                assert(pairs@[k as int].0 == pairs@[0].0);
                assert(max_v == pairs@[0].0);
                assert(choices@.contains(choices@[k as int]));
                assert(mv_ok(s, choices@[k as int]));
            }
            Some(mv)
        }
    }

    /// Selects this agent's move. The observed grid always receives a table
    /// entry; when no cell is empty there is no move and the game is over;
    /// otherwise, with probability epsilon the move is drawn uniformly among
    /// the candidates achieving the best estimate, else the scan keeps the
    /// first move strictly better than everything before it. Either way the
    /// chosen move's candidate estimate is the best available, and the table
    /// gains exactly the entries for the observed grid and its candidates.
    pub fn select_move(&mut self, state: &Board) -> (r: Option<(usize, usize)>)
        requires
            old(self).wf(),
        ensures
            final(self).wf(),
            final(self).id() == old(self).id(),
            final(self).spec_epsilon() == old(self).spec_epsilon(),
            final(self).spec_alpha() == old(self).spec_alpha(),
            final(self).estimates_map().contains_key(state@),
            old(self).estimates_seq().is_prefix_of(final(self).estimates_seq()),
            r is None <==> spec_avail(state@).len() == 0,
            r is None ==> final(self).estimates_map() == old(self).estimates_map().insert(
                state@,
                spec_value_of(old(self).estimates_map(), state@, old(self).id()),
            ),
            r matches Some(mv) ==> {
                &&& spec_avail(state@).contains(mv)
                &&& mv_ok(state@, mv)
                &&& spec_value_of(
                    old(self).estimates_map(),
                    spec_candidate(state@, mv, old(self).id()),
                    old(self).id(),
                ) as int == spec_best(
                    old(self).estimates_map(),
                    state@,
                    old(self).id(),
                    spec_avail(state@),
                )
                &&& spec_explored(
                    old(self).estimates_map(),
                    final(self).estimates_map(),
                    state@,
                    old(self).id(),
                )
            },
            old(self).spec_epsilon() == 0 && spec_avail(state@).len() > 0 ==> r == Some(
                spec_greedy(old(self).estimates_map(), state@, old(self).id(), spec_avail(state@)),
            ),
    {
        let ghost m0 = self.estimates_map();
        let ghost me = self.id();
        let ghost s = state@;
        let v_s = self.estimate_and_add(state);
        let ghost m1 = self.estimates_map();
        let choices = state.available_choices();
        if choices.len() == 0 {
            return None;
        }
        proof {
            lemma_avail_wf(s, 9);
            assert forall|i: int| 0 <= i < spec_avail(s).len() implies spec_value_of(
                m1,
                spec_candidate(s, #[trigger] spec_avail(s)[i], me),
                me,
            ) == spec_value_of(m0, spec_candidate(s, spec_avail(s)[i], me), me) by {
                lemma_candidate_ne_state(s, spec_avail(s)[i], me);
            }
        }
        let k = random_below(SCALE);
        let r = if k < self.epsilon {
            self.exploratory_action(state)
        } else {
            self.greedy_action(state)
        };
        proof {
            let m2 = self.estimates_map();
            lemma_best_same(m1, m0, s, me, spec_avail(s));
            if old(self).spec_epsilon() == 0 {
                lemma_greedy_same(m1, m0, s, me, spec_avail(s));
            }
            // every key the starting table held survives with its value
            assert forall|key: Seq<Cell>| #[trigger] m0.contains_key(key) implies m2.contains_key(
                key,
            ) && m2[key] == m0[key] by {
                assert(m1.contains_key(key) && m1[key] == m0[key]);
            }
            // the observed grid is stored with its pre-move estimate
            assert(m1.contains_key(s) && m1[s] == spec_value_of(m0, s, me));
            assert(m2.contains_key(s) && m2[s] == spec_value_of(m0, s, me));
            // each candidate is stored with its pre-move estimate
            assert forall|i: int| 0 <= i < spec_avail(s).len() implies {
                let c = spec_candidate(s, #[trigger] spec_avail(s)[i], me);
                m2.contains_key(c) && m2[c] == spec_value_of(m0, c, me)
            } by {
                assert(m2[spec_candidate(s, spec_avail(s)[i], me)] == spec_value_of(
                    m1,
                    spec_candidate(s, spec_avail(s)[i], me),
                    me,
                ));
            }
            // and nothing else was added
            assert forall|key: Seq<Cell>| #[trigger] m2.contains_key(key) implies m0.contains_key(
                key,
            ) || key == s || exists|i: int|
                0 <= i < spec_avail(s).len() && key == spec_candidate(
                    s,
                    #[trigger] spec_avail(s)[i],
                    me,
                ) by {
                if !m0.contains_key(key) && key != s {
                    assert(m1.contains_key(key) ==> key == s || m0.contains_key(key));
                }
            }
            assert(spec_explored(m0, m2, s, me));
        }
        r
    }

    /// The TD(0) learning step for one of this agent's own moves: the prior
    /// grid's stored value moves toward the resulting grid's estimate by a
    /// fraction `alpha` of their difference. The prior grid must already
    /// have an entry, as `select_move` guarantees for the grid it observed;
    /// no other entry changes, and the resulting grid is not inserted.
    pub fn learn_from_transition(&mut self, prior: &Board, resulting: &Board)
        requires
            old(self).wf(),
            old(self).estimates_map().contains_key(prior@),
        ensures
            final(self).wf(),
            final(self).id() == old(self).id(),
            final(self).spec_epsilon() == old(self).spec_epsilon(),
            final(self).spec_alpha() == old(self).spec_alpha(),
            final(self).estimates_map() == old(self).estimates_map().insert(
                prior@,
                spec_td(
                    old(self).estimates_map()[prior@] as int,
                    spec_value_of(old(self).estimates_map(), resulting@, old(self).id()) as int,
                    old(self).spec_alpha() as int,
                ) as u64,
            ),
            final(self).estimates_map().contains_key(prior@),
            final(self).estimates_seq().len() == old(self).estimates_seq().len(),
            forall|j: int|
                0 <= j < old(self).estimates_seq().len() ==> (
                #[trigger] final(self).estimates_seq()[j]).0 == old(self).estimates_seq()[j].0,
    {
        let v1 = match self.estimates.lookup(prior) {
            Some(v) => v,
            None => vstd::pervasive::unreached(),
        };
        let v2 = self.estimate(resulting);
        let nv = td_update(v1, v2, self.alpha);
        match self.estimates.set(prior, nv) {
            Ok(_) => {},
            Err(_) => {
                proof {
                    assert(false);
                }
            },
        }
    }
}

/// The narrow contract a game loop drives any player through: ask for a
/// move and, after applying that player's own move to the board, hand back
/// the grids from immediately before and after it for learning.
pub trait Player {
    /// Whether the player is in a state fit to act.
    spec fn ready(&self) -> bool;

    /// Whether a learning update for this prior grid may be applied.
    spec fn ready_to_update(&self, prior: &Board) -> bool;

    /// Chooses a move on the given grid; no move means the game is over,
    /// not a failure.
    fn choose_action(&mut self, state: &Board) -> (r: Option<(usize, usize)>)
        requires
            old(self).ready(),
        ensures
            final(self).ready(),
            r matches Some(mv) ==> spec_avail(state@).contains(mv),
            r is Some ==> final(self).ready_to_update(state),
    ;

    /// Learns from the player's own move, given the grids immediately
    /// before and after it.
    fn update_after_action(&mut self, state1: &Board, state2: &Board)
        requires
            old(self).ready(),
            old(self).ready_to_update(state1),
        ensures
            final(self).ready(),
    ;
}

impl Player for RLPlayer {
    open spec fn ready(&self) -> bool {
        self.wf()
    }

    open spec fn ready_to_update(&self, prior: &Board) -> bool {
        self.estimates_map().contains_key(prior@)
    }

    fn choose_action(&mut self, state: &Board) -> (r: Option<(usize, usize)>) {
        self.select_move(state)
    }

    fn update_after_action(&mut self, state1: &Board, state2: &Board) {
        self.learn_from_transition(state1, state2)
    }
}

/// A well-formed agent's parameters and stored values all lie in range.
pub proof fn lemma_player_wf_bounds(p: RLPlayer)
    requires
        p.wf(),
    ensures
        p.spec_epsilon() <= SCALE,
        1 <= p.spec_alpha() <= SCALE,
        forall|i: int|
            0 <= i < p.estimates_seq().len() ==> (#[trigger] p.estimates_seq()[i]).1 <= SCALE,
{
    crate::table::lemma_table_wf_values(p.estimates);
}

/// The default-value initialization rule: a never-seen grid that already
/// shows three of the agent's own marks in a line is worth one whole unit, a
/// line of the opponent's marks is worth zero, and anything else one half.
pub proof fn lemma_default_value(s: Seq<Cell>, me: PlayerId)
    ensures
        has_line(s, me.spec_cell()) && !has_line(s, me.spec_next().spec_cell()) ==> spec_default(
            s,
            me,
        ) == SCALE,
        has_line(s, me.spec_next().spec_cell()) && !has_line(s, me.spec_cell()) ==> spec_default(
            s,
            me,
        ) == 0,
        !has_line(s, Cell::X) && !has_line(s, Cell::O) ==> spec_default(s, me) == HALF,
{
}

/// The learning step is idempotent on agreement: when the prior grid's
/// stored value already equals the resulting grid's estimate, the update
/// leaves the table exactly as it was.
pub proof fn lemma_learn_idempotent(
    m: Map<Seq<Cell>, u64>,
    prior: Seq<Cell>,
    resulting: Seq<Cell>,
    me: PlayerId,
    alpha: int,
)
    requires
        m.contains_key(prior),
        m[prior] == spec_value_of(m, resulting, me),
    ensures
        m.insert(
            prior,
            spec_td(m[prior] as int, spec_value_of(m, resulting, me) as int, alpha) as u64,
        ) == m,
{
    crate::value::lemma_td_fixed_point(m[prior] as int, alpha);
    assert(m.insert(
        prior,
        spec_td(m[prior] as int, spec_value_of(m, resulting, me) as int, alpha) as u64,
    ) =~= m);
}

} // verus!
