//! Registry logic: agent statistics, challenge and game records, and the leaderboard.
use vstd::multiset::Multiset;
use vstd::prelude::*;

verus! {

// ── Status constants (shared with the registry account) ─────────────────────

pub const CHALLENGE_OPEN: u64 = 0;
pub const CHALLENGE_ACCEPTED: u64 = 1;
pub const CHALLENGE_CANCELLED: u64 = 2;

pub const GAME_ACTIVE: u64 = 0;
pub const GAME_WHITE_WINS: u64 = 1;
pub const GAME_BLACK_WINS: u64 = 2;
pub const GAME_DRAW: u64 = 3;

/// Sentinel stored in the fourth stats element to tell registered agents from the
/// default all-zero record.
pub const REGISTERED: u64 = 1;

// ── Data types ──────────────────────────────────────────────────────────────

/// Per-agent statistics and identity.
#[derive(Clone, Copy, Debug, Default, PartialEq, Eq)]
pub struct AgentStats {
    pub prefix: u64,
    pub name: [u64; 4],
    pub wins: u64,
    pub losses: u64,
    pub draws: u64,
}

/// Recording `result` for an agent that played white (`is_white`) or black does not
/// overflow the counter it increments.
pub open spec fn result_fits(s: AgentStats, is_white: bool, result: u64) -> bool {
    if result == GAME_WHITE_WINS {
        if is_white {
            s.wins < u64::MAX
        } else {
            s.losses < u64::MAX
        }
    } else if result == GAME_BLACK_WINS {
        if !is_white {
            s.wins < u64::MAX
        } else {
            s.losses < u64::MAX
        }
    } else if result == GAME_DRAW {
        s.draws < u64::MAX
    } else {
        true
    }
}

/// The statistics after one game result: a win for the winning colour, a loss for the
/// other, a draw for both; any other status changes nothing.
pub open spec fn after_result(s: AgentStats, is_white: bool, result: u64) -> AgentStats {
    if result == GAME_WHITE_WINS {
        if is_white {
            AgentStats { wins: (s.wins + 1) as u64, ..s }
        } else {
            AgentStats { losses: (s.losses + 1) as u64, ..s }
        }
    } else if result == GAME_BLACK_WINS {
        if !is_white {
            AgentStats { wins: (s.wins + 1) as u64, ..s }
        } else {
            AgentStats { losses: (s.losses + 1) as u64, ..s }
        }
    } else if result == GAME_DRAW {
        AgentStats { draws: (s.draws + 1) as u64, ..s }
    } else {
        s
    }
}

impl AgentStats {
    /// Classical tournament score: 1 point per win, 1/2 per draw (stored doubled).
    pub fn score(&self) -> (r: u64)
        requires
            self.wins * 2 + self.draws <= u64::MAX,
        ensures
            r == self.wins * 2 + self.draws,
    {
        self.wins * 2 + self.draws
    }

    pub fn total_games(&self) -> (r: u64)
        requires
            self.wins + self.losses + self.draws <= u64::MAX,
        ensures
            r == self.wins + self.losses + self.draws,
    {
        self.wins + self.losses + self.draws
    }

    /// Return a copy updated for one game result.
    /// `is_white`: whether this agent played white in that game.
    pub fn apply_result(&self, is_white: bool, result: u64) -> (s: Self)
        requires
            result_fits(*self, is_white, result),
        ensures
            s == after_result(*self, is_white, result),
    {
        let mut s = *self;
        if result == GAME_WHITE_WINS {
            if is_white {
                s.wins = s.wins + 1;
            } else {
                s.losses = s.losses + 1;
            }
        } else if result == GAME_BLACK_WINS {
            if !is_white {
                s.wins = s.wins + 1;
            } else {
                s.losses = s.losses + 1;
            }
        } else if result == GAME_DRAW {
            s.draws = s.draws + 1;
        }
        s
    }
}

/// An open or resolved challenge.
#[derive(Clone, Copy, Debug, PartialEq, Eq)]
pub struct ChallengeRecord {
    pub id: u64,
    pub challenger_prefix: u64,
    pub wager_amount: u64,
    pub status: u64,
}

impl ChallengeRecord {
    pub fn is_open(&self) -> (r: bool)
        ensures
            r == (self.status == CHALLENGE_OPEN),
    {
        self.status == CHALLENGE_OPEN
    }

    pub fn is_accepted(&self) -> (r: bool)
        ensures
            r == (self.status == CHALLENGE_ACCEPTED),
    {
        self.status == CHALLENGE_ACCEPTED
    }

    pub fn is_cancelled(&self) -> (r: bool)
        ensures
            r == (self.status == CHALLENGE_CANCELLED),
    {
        self.status == CHALLENGE_CANCELLED
    }
}

/// A game record created when a challenge is accepted.
#[derive(Clone, Copy, Debug, PartialEq, Eq)]
pub struct GameRecord {
    pub id: u64,
    pub white_prefix: u64,
    pub black_prefix: u64,
    pub status: u64,
    pub game_contract_prefix: u64,
}

impl GameRecord {
    pub fn is_active(&self) -> (r: bool)
        ensures
            r == (self.status == GAME_ACTIVE),
    {
        self.status == GAME_ACTIVE
    }

    /// Returns the prefix of the winning agent, or `None` for draw/active.
    pub fn winner_prefix(&self) -> (w: Option<u64>)
        ensures
            w == (if self.status == GAME_WHITE_WINS {
                Some(self.white_prefix)
            } else if self.status == GAME_BLACK_WINS {
                Some(self.black_prefix)
            } else {
                None
            }),
    {
        if self.status == GAME_WHITE_WINS {
            Some(self.white_prefix)
        } else if self.status == GAME_BLACK_WINS {
            Some(self.black_prefix)
        } else {
            None
        }
    }
}

/// One game result is counted exactly once: the winner gains a win, the loser a loss,
/// both players of a draw a draw, and any non-final status changes nothing; the agent's
/// identity stays, and a final result adds exactly one game.
pub proof fn lemma_result_counted_once(s: AgentStats, is_white: bool, result: u64)
    requires
        result_fits(s, is_white, result),
    ensures
        after_result(s, is_white, result).prefix == s.prefix,
        after_result(s, is_white, result).name == s.name,
        (result == GAME_WHITE_WINS && is_white) || (result == GAME_BLACK_WINS && !is_white) ==> after_result(
            s,
            is_white,
            result,
        ).wins == s.wins + 1 && after_result(s, is_white, result).losses == s.losses && after_result(
            s,
            is_white,
            result,
        ).draws == s.draws,
        (result == GAME_WHITE_WINS && !is_white) || (result == GAME_BLACK_WINS && is_white) ==> after_result(
            s,
            is_white,
            result,
        ).wins == s.wins && after_result(s, is_white, result).losses == s.losses + 1 && after_result(
            s,
            is_white,
            result,
        ).draws == s.draws,
        result == GAME_DRAW ==> after_result(s, is_white, result).wins == s.wins && after_result(
            s,
            is_white,
            result,
        ).losses == s.losses && after_result(s, is_white, result).draws == s.draws + 1,
        result != GAME_WHITE_WINS && result != GAME_BLACK_WINS && result != GAME_DRAW ==> after_result(
            s,
            is_white,
            result,
        ) == s,
        result == GAME_WHITE_WINS || result == GAME_BLACK_WINS || result == GAME_DRAW ==> after_result(
            s,
            is_white,
            result,
        ).wins + after_result(s, is_white, result).losses + after_result(s, is_white, result).draws == s.wins
            + s.losses + s.draws + 1,
{
}

// ── Leaderboard logic ───────────────────────────────────────────────────────

/// `a` ranks strictly above `b`: more wins; on equal wins fewer losses; on equal wins and
/// losses more draws.
pub open spec fn ranks_above(a: AgentStats, b: AgentStats) -> bool {
    a.wins > b.wins || (a.wins == b.wins && (a.losses < b.losses || (a.losses == b.losses && a.draws
        > b.draws)))
}

/// The first index at or after `k` whose agent `a` ranks above, or the length.
pub open spec fn first_ranked_below(s: Seq<AgentStats>, a: AgentStats, k: int) -> int
    decreases s.len() - k,
{
    if k >= s.len() {
        s.len() as int
    } else if ranks_above(a, s[k]) {
        k
    } else {
        first_ranked_below(s, a, k + 1)
    }
}

/// `a` inserted into a ranked sequence after every agent it does not rank above.
pub open spec fn insert_ranked(s: Seq<AgentStats>, a: AgentStats) -> Seq<AgentStats> {
    s.insert(first_ranked_below(s, a, 0), a)
}

/// The leaderboard order of a sequence of agents: a stable sort by rank.
pub open spec fn leaderboard(s: Seq<AgentStats>) -> Seq<AgentStats>
    decreases s.len(),
{
    if s.len() == 0 {
        s
    } else {
        insert_ranked(leaderboard(s.drop_last()), s.last())
    }
}

fn ranks_above_exec(a: &AgentStats, b: &AgentStats) -> (r: bool)
    ensures
        r == ranks_above(*a, *b),
{
    a.wins > b.wins || (a.wins == b.wins && (a.losses < b.losses || (a.losses == b.losses && a.draws
        > b.draws)))
}

/// Sort agents for leaderboard display.
///
/// Primary: wins descending (more wins = higher rank).
/// Secondary: losses ascending (fewer losses breaks ties).
/// Tertiary: draws descending (more draws breaks further ties).
/// Agents with equal records keep their order.
pub fn sort_leaderboard(agents: &mut Vec<AgentStats>)
    ensures
        final(agents)@ == leaderboard(old(agents)@),
{
    let ghost orig = agents@;
    let n0 = agents.len();
    assert(orig.len() == n0);
    let mut sorted: Vec<AgentStats> = Vec::new();
    let mut k: usize = 0;
    while agents.len() > 0
        invariant
            k <= orig.len(),
            orig.len() <= usize::MAX,
            agents@ == orig.skip(k as int),
            sorted@ == leaderboard(orig.take(k as int)),
        decreases agents.len(),
    {
        let a = agents.remove(0);
        assert(a == orig[k as int]);
        let mut pos: usize = 0;
        while pos < sorted.len() && !ranks_above_exec(&a, &sorted[pos])
            invariant
                pos <= sorted.len(),
                first_ranked_below(sorted@, a, 0) == first_ranked_below(sorted@, a, pos as int),
            decreases sorted.len() - pos,
        {
            pos = pos + 1;
        }
        sorted.insert(pos, a);
        assert(orig.take(k + 1).drop_last() =~= orig.take(k as int));
        assert(orig.skip(k as int).drop_first() =~= orig.skip(k + 1));
        k = k + 1;
    }
    assert(orig.take(k as int) =~= orig);
    *agents = sorted;
}

/// The first index at or after `k` of an agent with `prefix`, or the length.
pub open spec fn first_with_prefix(s: Seq<AgentStats>, prefix: u64, k: int) -> int
    decreases s.len() - k,
{
    if k >= s.len() {
        s.len() as int
    } else if s[k].prefix == prefix {
        k
    } else {
        first_with_prefix(s, prefix, k + 1)
    }
}

/// The 1-based leaderboard rank of `prefix`: one more than its first index in the
/// leaderboard order, or `None` when no agent has it.
pub open spec fn rank_of(agents: Seq<AgentStats>, prefix: u64) -> Option<int> {
    let board = leaderboard(agents);
    let k = first_with_prefix(board, prefix, 0);
    if k < board.len() {
        Some(k + 1)
    } else {
        None
    }
}

/// Return the 1-based leaderboard rank of `prefix`, or `None` if not found.
pub fn leaderboard_rank(agents: &[AgentStats], prefix: u64) -> (rank: Option<usize>)
    ensures
        rank matches Some(r) ==> rank_of(agents@, prefix) == Some(r as int),
        rank is None <==> rank_of(agents@, prefix) is None,
{
    let mut sorted: Vec<AgentStats> = Vec::new();
    for i in 0..agents.len()
        invariant
            sorted@ == agents@.take(i as int),
    {
        sorted.push(agents[i]);
        assert(agents@.take(i + 1) =~= agents@.take(i as int).push(agents@[i as int]));
    }
    assert(agents@.take(agents@.len() as int) =~= agents@);
    sort_leaderboard(&mut sorted);
    proof {
        lemma_leaderboard_len(agents@);
    }
    let mut i: usize = 0;
    while i < sorted.len()
        invariant
            sorted@ == leaderboard(agents@),
            i <= sorted.len(),
            first_with_prefix(sorted@, prefix, 0) == first_with_prefix(sorted@, prefix, i as int),
        decreases sorted.len() - i,
    {
        if sorted[i].prefix == prefix {
            return Some(i + 1);
        }
        i = i + 1;
    }
    None
}

/// The leaderboard holds as many agents as its input.
pub proof fn lemma_leaderboard_len(s: Seq<AgentStats>)
    ensures
        leaderboard(s).len() == s.len(),
    decreases s.len(),
{
    if s.len() > 0 {
        lemma_leaderboard_len(s.drop_last());
        lemma_first_ranked_below_range(leaderboard(s.drop_last()), s.last(), 0);
    }
}

proof fn lemma_first_ranked_below_range(s: Seq<AgentStats>, a: AgentStats, k: int)
    requires
        0 <= k <= s.len(),
    ensures
        k <= first_ranked_below(s, a, k) <= s.len(),
    decreases s.len() - k,
{
    if k < s.len() {
        lemma_first_ranked_below_range(s, a, k + 1);
    }
}

/// No agent ranks above an agent placed before it.
pub open spec fn is_ranked(s: Seq<AgentStats>) -> bool {
    forall|i: int, j: int| 0 <= i < j < s.len() ==> !ranks_above(#[trigger] s[j], #[trigger] s[i])
}

proof fn lemma_first_ranked_below_props(s: Seq<AgentStats>, a: AgentStats, k: int)
    requires
        0 <= k <= s.len(),
    ensures
        k <= first_ranked_below(s, a, k) <= s.len(),
        forall|i: int| k <= i < first_ranked_below(s, a, k) ==> !ranks_above(a, #[trigger] s[i]),
        first_ranked_below(s, a, k) < s.len() ==> ranks_above(a, s[first_ranked_below(s, a, k)]),
    decreases s.len() - k,
{
    if k < s.len() {
        lemma_first_ranked_below_props(s, a, k + 1);
    }
}

proof fn lemma_insert_ranked(t: Seq<AgentStats>, a: AgentStats)
    requires
        is_ranked(t),
    ensures
        is_ranked(insert_ranked(t, a)),
        insert_ranked(t, a).to_multiset() =~= t.to_multiset().insert(a),
{
    broadcast use vstd::seq_lib::group_to_multiset_ensures;

    let k = first_ranked_below(t, a, 0);
    lemma_first_ranked_below_props(t, a, 0);
    let u = insert_ranked(t, a);
    assert(u.len() == t.len() + 1);
    assert forall|i: int, j: int| 0 <= i < j < u.len() implies !ranks_above(#[trigger] u[j], #[trigger] u[i]) by {
        if j < k {
            assert(u[i] == t[i] && u[j] == t[j]);
        } else if j == k {
            assert(u[j] == a && u[i] == t[i]);
        } else if i < k {
            assert(u[j] == t[j - 1] && u[i] == t[i]);
            if ranks_above(u[j], u[i]) {
                // t[k] ranks below a and no lower than t[j - 1]; t[i] is not below a
                assert(ranks_above(a, t[k]));
                if j - 1 > k {
                    assert(!ranks_above(t[j - 1], t[k]));
                }
            }
        } else if i == k {
            assert(u[i] == a && u[j] == t[j - 1]);
            assert(ranks_above(a, t[k]));
            if j - 1 > k {
                assert(!ranks_above(t[j - 1], t[k]));
            }
        } else {
            assert(u[i] == t[i - 1] && u[j] == t[j - 1]);
        }
    }
    assert(u.remove(k) =~= t);
    assert(u[k] == a);
}

/// The leaderboard order is ranked and holds exactly the agents it was given.
pub proof fn lemma_leaderboard_sorted_permutation(s: Seq<AgentStats>)
    ensures
        is_ranked(leaderboard(s)),
        leaderboard(s).to_multiset() =~= s.to_multiset(),
    decreases s.len(),
{
    broadcast use vstd::seq_lib::group_to_multiset_ensures;

    if s.len() == 0 {
        assert(s.to_multiset() =~= Multiset::empty());
        assert(leaderboard(s).to_multiset() =~= Multiset::empty());
    } else {
        lemma_leaderboard_sorted_permutation(s.drop_last());
        lemma_insert_ranked(leaderboard(s.drop_last()), s.last());
        assert(s.drop_last().push(s.last()) =~= s);
    }
}

/// Two agents hold the same record: equal wins, losses and draws.
pub open spec fn same_record(a: AgentStats, b: AgentStats) -> bool {
    a.wins == b.wins && a.losses == b.losses && a.draws == b.draws
}

/// The agents of `s` holding the record of `r`, in their order in `s`.
pub open spec fn with_record(s: Seq<AgentStats>, r: AgentStats) -> Seq<AgentStats> {
    s.filter(|a: AgentStats| same_record(a, r))
}

/// The leaderboard is a stable order: agents with equal records keep their relative
/// order.
pub proof fn lemma_leaderboard_stable(s: Seq<AgentStats>, r: AgentStats)
    ensures
        with_record(leaderboard(s), r) == with_record(s, r),
    decreases s.len(),
{
    broadcast use vstd::seq_lib::group_seq_properties;

    let p = |a: AgentStats| same_record(a, r);
    if s.len() == 0 {
        return;
    }
    let t = s.drop_last();
    let x = s.last();
    let l = leaderboard(t);
    lemma_leaderboard_stable(t, r);
    lemma_leaderboard_sorted_permutation(t);
    lemma_first_ranked_below_props(l, x, 0);
    let k = first_ranked_below(l, x, 0);
    let front = l.subrange(0, k);
    let back = l.subrange(k, l.len() as int);
    assert(l =~= front + back);
    assert(insert_ranked(l, x) =~= front + seq![x] + back);
    Seq::filter_distributes_over_add(front, back, p);
    Seq::filter_distributes_over_add(front + seq![x], back, p);
    Seq::filter_distributes_over_add(front, seq![x], p);
    Seq::<AgentStats>::empty().lemma_filter_push(x, p);
    assert(Seq::<AgentStats>::empty().push(x) =~= seq![x]);
    assert(Seq::<AgentStats>::empty().filter(p) =~= Seq::<AgentStats>::empty()) by {
        reveal(Seq::filter);
    }
    t.lemma_filter_push(x, p);
    assert(t.push(x) =~= s);
    if p(x) {
        assert forall|m: int| 0 <= m < back.len() implies !p(#[trigger] back[m]) by {
            assert(back[m] == l[k + m]);
            if m > 0 {
                assert(!ranks_above(l[k + m], l[k]));
            }
        }
        assert(back.all(|y: AgentStats| !p(y)));
        back.lemma_all_neg_filter_empty(p);
        assert(back.filter(p) =~= Seq::<AgentStats>::empty());
        assert(with_record(insert_ranked(l, x), r) =~= front.filter(p).push(x));
    } else {
        assert(with_record(insert_ranked(l, x), r) =~= front.filter(p) + back.filter(p));
    }
}

// ── Game results ────────────────────────────────────────────────────────────

/// An agent after a game between `white_prefix` and `black_prefix`: the white player
/// (matched first) and the black player get their result; others are unchanged.
pub open spec fn after_game(a: AgentStats, white_prefix: u64, black_prefix: u64, result: u64) -> AgentStats {
    if a.prefix == white_prefix {
        after_result(a, true, result)
    } else if a.prefix == black_prefix {
        after_result(a, false, result)
    } else {
        a
    }
}

/// Recording the game overflows no participant's counters.
pub open spec fn game_result_fits(stats: Seq<AgentStats>, white_prefix: u64, black_prefix: u64, result: u64) -> bool {
    forall|i: int|
        0 <= i < stats.len() ==> (#[trigger] stats[i].prefix == white_prefix ==> result_fits(
            stats[i],
            true,
            result,
        )) && (stats[i].prefix != white_prefix && stats[i].prefix == black_prefix ==> result_fits(
            stats[i],
            false,
            result,
        ))
}

/// The number of records among the first `n` that belong to either player.
pub open spec fn count_players(stats: Seq<AgentStats>, white_prefix: u64, black_prefix: u64, n: int) -> nat
    decreases n,
{
    if n <= 0 {
        0
    } else {
        count_players(stats, white_prefix, black_prefix, n - 1) + if stats[n - 1].prefix == white_prefix
            || stats[n - 1].prefix == black_prefix {
            1nat
        } else {
            0nat
        }
    }
}

proof fn lemma_count_players_bound(stats: Seq<AgentStats>, white_prefix: u64, black_prefix: u64, n: int)
    requires
        0 <= n,
    ensures
        count_players(stats, white_prefix, black_prefix, n) <= n,
    decreases n,
{
    if n > 0 {
        lemma_count_players_bound(stats, white_prefix, black_prefix, n - 1);
    }
}

/// Some record among the first `n` has this prefix.
pub open spec fn has_prefix(stats: Seq<AgentStats>, prefix: u64, n: int) -> bool {
    exists|i: int| 0 <= i < n && #[trigger] stats[i].prefix == prefix
}

/// No two records share a prefix.
pub open spec fn distinct_prefixes(stats: Seq<AgentStats>) -> bool {
    forall|i: int, j: int| 0 <= i < j < stats.len() ==> #[trigger] stats[i].prefix != #[trigger] stats[j].prefix
}

proof fn lemma_count_players_distinct(stats: Seq<AgentStats>, white_prefix: u64, black_prefix: u64, n: int)
    requires
        0 <= n <= stats.len(),
        distinct_prefixes(stats),
    ensures
        count_players(stats, white_prefix, black_prefix, n) == (if has_prefix(stats, white_prefix, n) {
            1int
        } else {
            0int
        }) + (if white_prefix != black_prefix && has_prefix(stats, black_prefix, n) {
            1int
        } else {
            0int
        }),
    decreases n,
{
    if n > 0 {
        lemma_count_players_distinct(stats, white_prefix, black_prefix, n - 1);
        let last = stats[n - 1];
        assert forall|p: u64| #[trigger] has_prefix(stats, p, n) == (has_prefix(stats, p, n - 1) || last.prefix
            == p) by {
            if has_prefix(stats, p, n) && last.prefix != p {
                let i = choose|i: int| 0 <= i < n && #[trigger] stats[i].prefix == p;
                assert(0 <= i < n - 1 && stats[i].prefix == p);
            }
        }
        if last.prefix == white_prefix || last.prefix == black_prefix {
            assert(!has_prefix(stats, last.prefix, n - 1)) by {
                if has_prefix(stats, last.prefix, n - 1) {
                    let i = choose|i: int| 0 <= i < n - 1 && #[trigger] stats[i].prefix == last.prefix;
                    assert(stats[i].prefix != stats[n - 1].prefix);
                }
            }
        }
    }
}

/// With distinct prefixes, a game result updates 0, 1 or 2 records: one for each player
/// present (one only when both players are the same agent).
pub proof fn lemma_at_most_two_updated(stats: Seq<AgentStats>, white_prefix: u64, black_prefix: u64)
    requires
        distinct_prefixes(stats),
    ensures
        count_players(stats, white_prefix, black_prefix, stats.len() as int) <= 2,
        count_players(stats, white_prefix, black_prefix, stats.len() as int) == (if has_prefix(
            stats,
            white_prefix,
            stats.len() as int,
        ) {
            1int
        } else {
            0int
        }) + (if white_prefix != black_prefix && has_prefix(stats, black_prefix, stats.len() as int) {
            1int
        } else {
            0int
        }),
{
    lemma_count_players_distinct(stats, white_prefix, black_prefix, stats.len() as int);
}

/// Apply a settled game result to the relevant agents in `stats`.
///
/// Returns the number of agent records that were updated.
pub fn apply_game_result(stats: &mut Vec<AgentStats>, white_prefix: u64, black_prefix: u64, result: u64) -> (updated: usize)
    requires
        game_result_fits(old(stats)@, white_prefix, black_prefix, result),
    ensures
        final(stats)@ == old(stats)@.map_values(
            |a: AgentStats| after_game(a, white_prefix, black_prefix, result),
        ),
        updated == count_players(old(stats)@, white_prefix, black_prefix, old(stats)@.len() as int),
{
    let ghost orig = stats@;
    let mut updated: usize = 0;
    let mut i: usize = 0;
    while i < stats.len()
        invariant
            stats@.len() == orig.len(),
            i <= orig.len(),
            game_result_fits(orig, white_prefix, black_prefix, result),
            forall|j: int| 0 <= j < i ==> #[trigger] stats@[j] == after_game(orig[j], white_prefix, black_prefix, result),
            forall|j: int| i <= j < orig.len() ==> #[trigger] stats@[j] == orig[j],
            updated == count_players(orig, white_prefix, black_prefix, i as int),
        decreases orig.len() - i,
    {
        proof {
            lemma_count_players_bound(orig, white_prefix, black_prefix, i as int);
        }
        assert(stats@[i as int] == orig[i as int]);
        if stats[i].prefix == white_prefix {
            let a = stats[i].apply_result(true, result);
            stats[i] = a;
            updated = updated + 1;
        } else if stats[i].prefix == black_prefix {
            let a = stats[i].apply_result(false, result);
            stats[i] = a;
            updated = updated + 1;
        }
        i = i + 1;
    }
    assert(stats@ =~= orig.map_values(|a: AgentStats| after_game(a, white_prefix, black_prefix, result)));
    updated
}

} // verus!
