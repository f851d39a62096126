//! The search for the best move: a look-ahead of bounded depth and width.

use crate::board::{Board, BoardView};
use crate::distance::EvalStrategy;
use crate::evaluate::{DistState, LOSS, WIN};
use crate::geometry::Team;
use crate::movegen::views;
use crate::shortlist::{
    entries, is_top, lemma_shortlist_is_top, shortlist_get, shortlist_len, shortlist_of, top_n,
    SEARCH_WIDTH,
};
use vstd::prelude::*;

verus! {

/// The index of the greatest entry; of several greatest, the last. Zero for
/// an empty sequence.
pub open spec fn last_max(s: Seq<int>) -> int
    decreases s.len(),
{
    if s.len() <= 1 {
        0
    } else {
        let k = last_max(s.drop_last());
        if s.last() >= s[k] {
            s.len() - 1
        } else {
            k
        }
    }
}

/// The index that `last_max` gives is that of an entry which none exceeds
/// and which every later entry stays below.
pub proof fn lemma_last_max(s: Seq<int>)
    requires
        s.len() > 0,
    ensures
        0 <= last_max(s) < s.len(),
        forall|j: int| 0 <= j < s.len() ==> (#[trigger] s[j]) <= s[last_max(s)],
        forall|j: int| last_max(s) < j < s.len() ==> (#[trigger] s[j]) < s[last_max(s)],
    decreases s.len(),
{
    if s.len() > 1 {
        let shorter = s.drop_last();
        lemma_last_max(shorter);
        let k = last_max(shorter);
        assert forall|j: int| 0 <= j < s.len() implies (#[trigger] s[j]) <= s[last_max(s)] by {
            if j < s.len() - 1 {
                assert(shorter[j] == s[j]);
            }
        }
        assert forall|j: int| last_max(s) < j < s.len() implies (#[trigger] s[j]) < s[last_max(
            s,
        )] by {
            if j < s.len() - 1 {
                assert(shorter[j] == s[j]);
            }
        }
    }
}

impl BoardView {
    /// For each board that `team` can reach in one move, the negative of
    /// its score for the opponent.
    pub open spec fn reply_scores(self, team: Team, strategy: EvalStrategy) -> Seq<int> {
        let succ = self.successors(team);
        Seq::new(succ.len(), |k: int| -succ[k].evaluation(team.opponent(), strategy))
    }

    /// For each board that `team` can reach in one move, its score for
    /// `team`.
    pub open spec fn mover_scores(self, team: Team, strategy: EvalStrategy) -> Seq<i64> {
        let succ = self.successors(team);
        Seq::new(succ.len(), |k: int| succ[k].evaluation(team, strategy) as i64)
    }

    /// The move of a search that looks one move ahead: the board, among
    /// those that `team` can reach, that is worst for the opponent, and the
    /// negative of its score for the opponent; of several such boards the
    /// last. Without a move: no board, and the losing score.
    pub open spec fn leaf_move(self, team: Team, strategy: EvalStrategy) -> (
        Option<BoardView>,
        int,
    ) {
        let succ = self.successors(team);
        let scores = self.reply_scores(team, strategy);
        if succ.len() == 0 {
            (None, LOSS as int)
        } else {
            (Some(succ[last_max(scores)]), scores[last_max(scores)])
        }
    }

    /// The outcome of moving to board number `i` among those that `team` can
    /// reach: the negative of what the opponent achieves from it with one
    /// level less to look ahead.
    pub open spec fn outcome(self, team: Team, strategy: EvalStrategy, depth: int, i: int) -> int
        decreases depth, 0int, 0nat,
    {
        if depth <= 1 {
            LOSS as int
        } else {
            -self.successors(team)[i].best_move(team.opponent(), strategy, depth - 1).1
        }
    }

    /// The choice among the first `n` candidates of `order`: the number of
    /// the first candidate whose outcome exceeds the losing score and every
    /// outcome before it, with that outcome.
    pub open spec fn pick(
        self,
        team: Team,
        strategy: EvalStrategy,
        depth: int,
        order: Seq<(i64, usize)>,
        n: nat,
    ) -> (Option<int>, int)
        decreases depth, 0int, n,
    {
        if n == 0 || depth <= 1 {
            (None, LOSS as int)
        } else {
            let sofar = self.pick(team, strategy, depth, order, (n - 1) as nat);
            let i = order[n - 1].1 as int;
            let gain = -self.successors(team)[i].best_move(team.opponent(), strategy, depth - 1).1;
            if sofar.1 < gain {
                (Some(i), gain)
            } else {
                sofar
            }
        }
    }

    /// The move that the search makes for `team` with `depth` levels to look
    /// ahead, and its score. With one level, the leaf move. With more, the
    /// boards that `team` can reach are cut down to the best few by their
    /// score for `team`, and the choice is made among those by looking
    /// ahead; where every one of them ends in the losing score, the leaf
    /// move is made.
    pub open spec fn best_move(self, team: Team, strategy: EvalStrategy, depth: int) -> (
        Option<BoardView>,
        int,
    )
        decreases depth, 1int, 0nat,
    {
        if depth <= 1 {
            self.leaf_move(team, strategy)
        } else {
            let order = shortlist_of(self.mover_scores(team, strategy), SEARCH_WIDTH as nat);
            let choice = self.pick(team, strategy, depth, order, order.len());
            match choice.0 {
                None => self.leaf_move(team, strategy),
                Some(i) => (Some(self.successors(team)[i]), choice.1),
            }
        }
    }

    /// Board number `w` among those that `team` can reach is a worst one for
    /// `team`: none has a lower score for `team`.
    pub open spec fn is_worst(self, team: Team, strategy: EvalStrategy, w: int) -> bool {
        &&& 0 <= w < self.successors(team).len()
        &&& forall|j: int|
            0 <= j < self.successors(team).len() ==> self.successors(team)[w].evaluation(
                team,
                strategy,
            ) <= (#[trigger] self.successors(team)[j]).evaluation(team, strategy)
    }

    /// The leaf move is no move exactly when `team` has none. Otherwise it
    /// leads to a board that `team` can reach; its score is the negative of
    /// that board's score for the opponent; no board that `team` can reach is
    /// worse for the opponent; and the board is no worse for `team` than a
    /// worst board that `team` can reach.
    pub proof fn lemma_leaf_move(self, team: Team, strategy: EvalStrategy)
        ensures
            self.leaf_move(team, strategy).0 is None <==> self.successors(team).len() == 0,
            self.leaf_move(team, strategy).0 matches Some(b) ==> {
                &&& self.successors(team).contains(b)
                &&& self.leaf_move(team, strategy).1 == -b.evaluation(team.opponent(), strategy)
                &&& forall|j: int|
                    0 <= j < self.successors(team).len() ==> b.evaluation(
                        team.opponent(),
                        strategy,
                    ) <= (#[trigger] self.successors(team)[j]).evaluation(
                        team.opponent(),
                        strategy,
                    )
                &&& forall|w: int| #[trigger]
                    self.is_worst(team, strategy, w) ==> self.successors(team)[w].evaluation(
                        team,
                        strategy,
                    ) <= b.evaluation(team, strategy)
            },
    {
        let succ = self.successors(team);
        let scores = self.reply_scores(team, strategy);
        if succ.len() > 0 {
            lemma_last_max(scores);
            let k = last_max(scores);
            assert(succ.contains(succ[k]));
            assert forall|j: int| 0 <= j < succ.len() implies succ[k].evaluation(
                team.opponent(),
                strategy,
            ) <= (#[trigger] succ[j]).evaluation(team.opponent(), strategy) by {
                assert(scores[j] <= scores[k]);
            }
            assert forall|w: int| #[trigger] self.is_worst(team, strategy, w) implies succ[w].evaluation(
                team,
                strategy,
            ) <= succ[k].evaluation(team, strategy) by {
                assert(succ[w].evaluation(team, strategy) <= succ[k].evaluation(team, strategy));
            }
        }
    }
}

impl BoardView {
    /// The choice among the first `n` candidates of a list of the best is,
    /// if any, the number of a board that `team` can reach, and its outcome
    /// lies between the losing and the winning score.
    pub proof fn lemma_pick(
        self,
        team: Team,
        strategy: EvalStrategy,
        depth: int,
        order: Seq<(i64, usize)>,
        n: nat,
    )
        requires
            self.wf(),
            n <= order.len(),
            is_top(order, self.mover_scores(team, strategy), SEARCH_WIDTH as nat),
        ensures
            LOSS <= self.pick(team, strategy, depth, order, n).1 <= WIN,
            self.pick(team, strategy, depth, order, n).0 matches Some(i) ==> 0 <= i
                < self.successors(team).len(),
        decreases depth, 0int, n,
    {
        if n > 0 && depth > 1 {
            self.lemma_pick(team, strategy, depth, order, (n - 1) as nat);
            let i = order[n - 1].1 as int;
            assert(0 <= i < self.mover_scores(team, strategy).len());
            self.lemma_successors_wf(team, i);
            self.successors(team)[i].lemma_best_move(team.opponent(), strategy, depth - 1);
        }
    }

    /// The choice among the first `n` candidates has the greatest of their
    /// outcomes, and is the first candidate with that outcome; there is no
    /// choice exactly when no outcome exceeds the losing score.
    pub proof fn lemma_pick_is_first_best(
        self,
        team: Team,
        strategy: EvalStrategy,
        depth: int,
        order: Seq<(i64, usize)>,
        n: nat,
    )
        requires
            depth > 1,
            n <= order.len(),
        ensures
            forall|k: int|
                0 <= k < n ==> #[trigger] self.outcome(team, strategy, depth, order[k].1 as int)
                    <= self.pick(team, strategy, depth, order, n).1,
            self.pick(team, strategy, depth, order, n).0 is None ==> self.pick(
                team,
                strategy,
                depth,
                order,
                n,
            ).1 == LOSS,
            self.pick(team, strategy, depth, order, n).0 matches Some(i) ==> exists|k: int|
                0 <= k < n && order[k].1 == i && #[trigger] self.outcome(
                    team,
                    strategy,
                    depth,
                    order[k].1 as int,
                ) == self.pick(team, strategy, depth, order, n).1 && self.first_with(
                    team,
                    strategy,
                    depth,
                    order,
                    k,
                ),
        decreases n,
    {
        if n > 0 {
            self.lemma_pick_is_first_best(team, strategy, depth, order, (n - 1) as nat);
            let sofar = self.pick(team, strategy, depth, order, (n - 1) as nat);
            let now = self.pick(team, strategy, depth, order, n);
            let gain = self.outcome(team, strategy, depth, order[n - 1].1 as int);
            if sofar.1 < gain {
                assert(self.first_with(team, strategy, depth, order, n - 1));
            } else if let Some(i) = sofar.0 {
                let k = choose|k: int|
                    0 <= k < n - 1 && order[k].1 == i && #[trigger] self.outcome(
                        team,
                        strategy,
                        depth,
                        order[k].1 as int,
                    ) == sofar.1 && self.first_with(team, strategy, depth, order, k);
                assert(0 <= k < n && order[k].1 == i && self.outcome(
                    team,
                    strategy,
                    depth,
                    order[k].1 as int,
                ) == now.1 && self.first_with(team, strategy, depth, order, k));
            }
        }
    }

    /// Every candidate before number `k` has a lower outcome than
    /// candidate `k`.
    pub open spec fn first_with(
        self,
        team: Team,
        strategy: EvalStrategy,
        depth: int,
        order: Seq<(i64, usize)>,
        k: int,
    ) -> bool {
        forall|j: int|
            0 <= j < k ==> #[trigger] self.outcome(team, strategy, depth, order[j].1 as int)
                < self.outcome(team, strategy, depth, order[k].1 as int)
    }

    /// The move that the search makes is no move exactly when `team` has
    /// none; otherwise it leads to a board that `team` can reach. Its score
    /// lies between the losing and the winning score.
    pub proof fn lemma_best_move(self, team: Team, strategy: EvalStrategy, depth: int)
        requires
            self.wf(),
        ensures
            self.best_move(team, strategy, depth).0 is None <==> self.successors(team).len() == 0,
            self.best_move(team, strategy, depth).0 matches Some(b) ==> self.successors(
                team,
            ).contains(b),
            LOSS <= self.best_move(team, strategy, depth).1 <= WIN,
        decreases depth, 1int, 0nat,
    {
        self.lemma_leaf_move(team, strategy);
        let succ = self.successors(team);
        if succ.len() > 0 {
            let k = last_max(self.reply_scores(team, strategy));
            lemma_last_max(self.reply_scores(team, strategy));
            self.lemma_successors_wf(team, k);
            succ[k].lemma_evaluation_bound(team.opponent(), strategy);
        }
        if depth > 1 {
            let scores = self.mover_scores(team, strategy);
            assert(scores.len() <= usize::MAX) by {
                self.lemma_successors_count(team);
            }
            lemma_shortlist_is_top(scores, SEARCH_WIDTH as nat);
            let order = shortlist_of(scores, SEARCH_WIDTH as nat);
            self.lemma_pick(team, strategy, depth, order, order.len());
            let choice = self.pick(team, strategy, depth, order, order.len());
            if let Some(i) = choice.0 {
                assert(succ.contains(succ[i]));
            }
        }
    }
}

/// The board that a search hands back is the one that the contract names.
pub open spec fn same_move(found: Option<Board>, named: Option<BoardView>) -> bool {
    match (found, named) {
        (Some(b), Some(v)) => b@ == v && b.wf(),
        (None, None) => true,
        _ => false,
    }
}

/// The move of a search that looks one move ahead: of the boards that `team`
/// can reach, the one that is worst for the opponent, with the negative of
/// its score for the opponent. Without a move the result is no board and the
/// losing score.
pub fn leaf_move(board: &Board, team: Team, strategy: EvalStrategy, cache: &mut DistState) -> (r: (
    Option<Board>,
    i64,
))
    requires
        board.wf(),
    ensures
        same_move(r.0, board@.leaf_move(team, strategy).0),
        r.1 == board@.leaf_move(team, strategy).1,
        r.0 is None <==> board@.successors(team).len() == 0,
        r.0 matches Some(b) ==> board@.successors(team).contains(b@) && b@.size == board@.size,
        LOSS <= r.1 <= WIN,
{
    let mut succ = board.successors(team);
    let n = succ.len();
    if n == 0 {
        return (None, LOSS);
    }
    let ghost scores = board@.reply_scores(team, strategy);
    let mut best: usize = 0;
    let mut score: i64 = -succ[0].evaluate(team.other(), strategy, cache);
    let mut k: usize = 1;
    assert(views(succ@)[0] == succ[0]@);
    while k < n
        invariant
            1 <= k <= n,
            n == succ.len(),
            views(succ@) == board@.successors(team),
            forall|j: int|
                0 <= j < succ.len() ==> (#[trigger] succ[j]).wf() && succ[j]@.size == board@.size,
            scores == board@.reply_scores(team, strategy),
            best == last_max(scores.take(k as int)),
            0 <= best < k,
            score == scores[best as int],
            LOSS <= score <= WIN,
        decreases n - k,
    {
        let s = -succ[k].evaluate(team.other(), strategy, cache);
        proof {
            assert(views(succ@)[k as int] == succ[k as int]@);
            let upto = scores.take(k + 1);
            assert(upto.drop_last() =~= scores.take(k as int));
            assert(upto.last() == scores[k as int]);
            assert(upto[best as int] == scores[best as int]);
        }
        if s >= score {
            best = k;
            score = s;
        }
        k += 1;
    }
    proof {
        assert(scores.take(n as int) =~= scores);
        assert(views(succ@)[best as int] == succ[best as int]@);
    }
    let b = succ.swap_remove(best);
    (Some(b), score)
}

/// The best move for `team` that a search with `depth` levels to look ahead
/// finds, and its score. With one level the leaf move is made. With more,
/// the boards that `team` can reach are cut down to the best few by their
/// score for `team`; each of these is followed up by the opponent's best
/// move with one level less, and the first board with the best outcome is
/// chosen. Where every outcome is the losing score the leaf move is made.
/// The result is no board exactly when `team` has no move.
pub fn max_move(
    board: &Board,
    team: Team,
    strategy: EvalStrategy,
    depth: i32,
    cache: &mut DistState,
) -> (r: (Option<Board>, i64))
    requires
        board.wf(),
    ensures
        same_move(r.0, board@.best_move(team, strategy, depth as int).0),
        r.1 == board@.best_move(team, strategy, depth as int).1,
        r.0 is None <==> board@.successors(team).len() == 0,
        r.0 matches Some(b) ==> board@.successors(team).contains(b@) && b@.size == board@.size,
        LOSS <= r.1 <= WIN,
    decreases depth,
{
    if depth <= 1 {
        return leaf_move(board, team, strategy, cache);
    }
    let mut succ = board.successors(team);
    let ghost wanted = board@.mover_scores(team, strategy);
    let mut scores: Vec<i64> = Vec::new();
    let mut k: usize = 0;
    while k < succ.len()
        invariant
            0 <= k <= succ.len(),
            views(succ@) == board@.successors(team),
            forall|j: int|
                0 <= j < succ.len() ==> (#[trigger] succ[j]).wf() && succ[j]@.size == board@.size,
            wanted == board@.mover_scores(team, strategy),
            scores@ == wanted.take(k as int),
        decreases succ.len() - k,
    {
        let s = succ[k].evaluate(team, strategy, cache);
        proof {
            assert(views(succ@)[k as int] == succ[k as int]@);
            assert(scores@.push(s) =~= wanted.take(k + 1));
        }
        scores.push(s);
        k += 1;
    }
    assert(scores@ =~= wanted);
    let order = top_n(&scores, SEARCH_WIDTH);
    let n = shortlist_len(&order);
    let mut best: Option<usize> = None;
    let mut score: i64 = LOSS;
    let mut k: usize = 0;
    while k < n
        invariant
            0 <= k <= n,
            depth > 1,
            n == entries(order).len(),
            is_top(entries(order), scores@, SEARCH_WIDTH as nat),
            scores.len() == succ.len(),
            views(succ@) == board@.successors(team),
            forall|j: int|
                0 <= j < succ.len() ==> (#[trigger] succ[j]).wf() && succ[j]@.size == board@.size,
            match best {
                None => board@.pick(team, strategy, depth as int, entries(order), k as nat).0
                    is None,
                Some(i) => i < succ.len() && board@.pick(
                    team,
                    strategy,
                    depth as int,
                    entries(order),
                    k as nat,
                ).0 == Some(i as int),
            },
            score == board@.pick(team, strategy, depth as int, entries(order), k as nat).1,
            LOSS <= score <= WIN,
        decreases n - k,
    {
        let e = shortlist_get(&order, k);
        let i = e.1;
        assert(views(succ@)[i as int] == succ[i as int]@);
        let reply = max_move(&succ[i], team.other(), strategy, depth - 1, cache);
        let resp = reply.1;
        if score < -resp {
            score = -resp;
            best = Some(i);
        }
        k += 1;
    }
    match best {
        None => leaf_move(board, team, strategy, cache),
        Some(i) => {
            assert(views(succ@)[i as int] == succ[i as int]@);
            let b = succ.swap_remove(i);
            (Some(b), score)
        },
    }
}

} // verus!
