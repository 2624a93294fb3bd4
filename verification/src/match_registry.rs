//! Match registry: agent registration, challenge lifecycle, game records and result
//! reporting.
//!
//! The registry's persistent state is a `RegistryState`: counters and maps from an id or
//! an agent prefix to a four-element word. Every operation either fails, leaving the
//! state as it was, or applies its update.
use std::collections::HashMap;

use vstd::prelude::*;

use crate::game::{felt, to_felt, FIELD_MODULUS};
use crate::registry::{
    CHALLENGE_ACCEPTED, CHALLENGE_CANCELLED, CHALLENGE_OPEN, GAME_ACTIVE, GAME_BLACK_WINS, GAME_DRAW,
    GAME_WHITE_WINS, REGISTERED,
};

verus! {

broadcast use vstd::std_specs::hash::group_hash_axioms;

/// Why a registry operation is refused.
#[derive(Clone, Copy, Debug, PartialEq, Eq)]
pub enum RegistryError {
    /// The caller (or acceptor) is not a registered agent.
    NotRegistered,
    /// No challenge was ever posted under the id.
    UnknownChallenge,
    /// The challenge is not open.
    ChallengeNotOpen,
    /// An agent tried to accept its own challenge.
    OwnChallenge,
    /// Only the challenger may cancel a challenge.
    NotChallenger,
    /// No game was ever created under the id.
    UnknownGame,
    /// The game has already been settled.
    GameSettled,
    /// The reporter is not the game's recorded game contract.
    UnauthorizedReporter,
    /// The reported status is not a final result.
    InvalidResult,
    /// An updated counter does not fit in a field element.
    FieldOverflow,
}

/// The abstract registry state.
pub struct RegistryView {
    pub registry_name: [u64; 4],
    pub agent_count: u64,
    pub challenge_count: u64,
    pub game_count: u64,
    pub game_start_root: [u64; 4],
    /// agent prefix -> name
    pub agents_name: Map<u64, [u64; 4]>,
    /// agent prefix -> [wins, losses, draws, REGISTERED]
    pub agents_stats: Map<u64, [u64; 4]>,
    /// challenge id -> [challenger_prefix, wager_amount, status, 0]
    pub challenges: Map<u64, [u64; 4]>,
    /// challenge id -> wager asset key
    pub challenge_assets: Map<u64, [u64; 4]>,
    /// game id -> [white_prefix, black_prefix, status, game_contract_prefix]
    pub games: Map<u64, [u64; 4]>,
}

/// The registry's persistent state.
#[derive(Clone, Debug)]
pub struct RegistryState {
    pub registry_name: [u64; 4],
    pub agent_count: u64,
    pub challenge_count: u64,
    pub game_count: u64,
    pub game_start_root: [u64; 4],
    pub agents_name: HashMap<u64, [u64; 4]>,
    pub agents_stats: HashMap<u64, [u64; 4]>,
    pub challenges: HashMap<u64, [u64; 4]>,
    pub challenge_assets: HashMap<u64, [u64; 4]>,
    pub games: HashMap<u64, [u64; 4]>,
}

impl View for RegistryState {
    type V = RegistryView;

    open spec fn view(&self) -> RegistryView {
        RegistryView {
            registry_name: self.registry_name,
            agent_count: self.agent_count,
            challenge_count: self.challenge_count,
            game_count: self.game_count,
            game_start_root: self.game_start_root,
            agents_name: self.agents_name@,
            agents_stats: self.agents_stats@,
            challenges: self.challenges@,
            challenge_assets: self.challenge_assets@,
            games: self.games@,
        }
    }
}

/// The word stored under `k`, or the all-zero word when nothing is.
pub open spec fn stored(m: Map<u64, [u64; 4]>, k: u64) -> [u64; 4] {
    if m.contains_key(k) {
        m[k]
    } else {
        [0u64, 0, 0, 0]
    }
}

/// A value that is a field element.
pub open spec fn canonical(x: u64) -> bool {
    x < FIELD_MODULUS
}

pub open spec fn canonical_word(w: [u64; 4]) -> bool {
    canonical(w[0]) && canonical(w[1]) && canonical(w[2]) && canonical(w[3])
}

pub open spec fn canonical_map(m: Map<u64, [u64; 4]>) -> bool {
    forall|k: u64| #[trigger] m.contains_key(k) ==> canonical_word(m[k])
}

/// Every stored value is a field element.
pub open spec fn registry_well_formed(r: RegistryView) -> bool {
    &&& canonical(r.agent_count)
    &&& canonical(r.challenge_count)
    &&& canonical(r.game_count)
    &&& canonical_map(r.agents_stats)
    &&& canonical_map(r.challenges)
    &&& canonical_map(r.games)
}

/// The agent with `prefix` carries the registration sentinel.
pub open spec fn is_registered(r: RegistryView, prefix: u64) -> bool {
    stored(r.agents_stats, prefix)[3] == REGISTERED
}

/// Counters after one game result: the winning colour gains a win, the other a loss,
/// both a draw on a draw; any other status changes nothing.
pub open spec fn result_counts(wins: u64, losses: u64, draws: u64, is_white: bool, status: u64) -> (int, int, int) {
    if status == GAME_WHITE_WINS {
        if is_white {
            (wins + 1, losses as int, draws as int)
        } else {
            (wins as int, losses + 1, draws as int)
        }
    } else if status == GAME_BLACK_WINS {
        if !is_white {
            (wins + 1, losses as int, draws as int)
        } else {
            (wins as int, losses + 1, draws as int)
        }
    } else if status == GAME_DRAW {
        (wins as int, losses as int, draws + 1)
    } else {
        (wins as int, losses as int, draws as int)
    }
}

/// Update win/loss/draw counts for one game result.
pub fn apply_result_counts(wins: u64, losses: u64, draws: u64, is_white: bool, status: u64) -> (r: (u64, u64, u64))
    requires
        wins < u64::MAX,
        losses < u64::MAX,
        draws < u64::MAX,
    ensures
        (r.0 as int, r.1 as int, r.2 as int) == result_counts(wins, losses, draws, is_white, status),
{
    if status == GAME_WHITE_WINS {
        if is_white {
            (wins + 1, losses, draws)
        } else {
            (wins, losses + 1, draws)
        }
    } else if status == GAME_BLACK_WINS {
        if !is_white {
            (wins + 1, losses, draws)
        } else {
            (wins, losses + 1, draws)
        }
    } else if status == GAME_DRAW {
        (wins, losses, draws + 1)
    } else {
        (wins, losses, draws)
    }
}

/// One game result is counted exactly once: the winner gains a win, the loser a loss,
/// both players of a draw a draw, a non-final status changes nothing, and a final result
/// adds exactly one game.
pub proof fn lemma_result_counts_once(wins: u64, losses: u64, draws: u64, is_white: bool, status: u64)
    ensures
        (status == GAME_WHITE_WINS && is_white) || (status == GAME_BLACK_WINS && !is_white) ==> result_counts(
            wins,
            losses,
            draws,
            is_white,
            status,
        ) == (wins + 1, losses as int, draws as int),
        (status == GAME_WHITE_WINS && !is_white) || (status == GAME_BLACK_WINS && is_white) ==> result_counts(
            wins,
            losses,
            draws,
            is_white,
            status,
        ) == (wins as int, losses + 1, draws as int),
        status == GAME_DRAW ==> result_counts(wins, losses, draws, is_white, status) == (
            wins as int,
            losses as int,
            draws + 1,
        ),
        status != GAME_WHITE_WINS && status != GAME_BLACK_WINS && status != GAME_DRAW ==> result_counts(
            wins,
            losses,
            draws,
            is_white,
            status,
        ) == (wins as int, losses as int, draws as int),
        status == GAME_WHITE_WINS || status == GAME_BLACK_WINS || status == GAME_DRAW ==> result_counts(
            wins,
            losses,
            draws,
            is_white,
            status,
        ).0 + result_counts(wins, losses, draws, is_white, status).1 + result_counts(
            wins,
            losses,
            draws,
            is_white,
            status,
        ).2 == wins + losses + draws + 1,
{
}

// ── Transitions ─────────────────────────────────────────────────────────────

/// Registration: the name is (re)set; a first registration counts the agent and stores
/// zero statistics with the registration sentinel, a repeated one keeps the statistics.
pub open spec fn register_spec(r: RegistryView, prefix: u64, name: [u64; 4]) -> RegistryView {
    let r1 = RegistryView { agents_name: r.agents_name.insert(prefix, name), ..r };
    if is_registered(r, prefix) {
        r1
    } else {
        RegistryView {
            agent_count: felt((r.agent_count + 1) as u64),
            agents_stats: r.agents_stats.insert(prefix, [0u64, 0, 0, REGISTERED]),
            ..r1
        }
    }
}

/// Posting a challenge: a registered caller gets the next challenge id, an open record
/// [prefix, wager, OPEN, 0] and the asset key stored under it.
pub open spec fn post_spec(r: RegistryView, prefix: u64, wager_amount: u64, asset_key: [u64; 4]) -> Result<RegistryView, RegistryError> {
    if !is_registered(r, prefix) {
        Err(RegistryError::NotRegistered)
    } else {
        let id = r.challenge_count;
        Ok(RegistryView {
            challenges: r.challenges.insert(id, [prefix, wager_amount, CHALLENGE_OPEN, 0u64]),
            challenge_assets: r.challenge_assets.insert(id, asset_key),
            challenge_count: felt((id + 1) as u64),
            ..r
        })
    }
}

/// Accepting a challenge: it must have been posted and be open, the acceptor registered
/// and not the challenger; the challenge becomes accepted and a new active game is
/// recorded with the challenger as white and the acceptor as black.
pub open spec fn accept_spec(r: RegistryView, acceptor: u64, challenge_id: u64, game_contract_prefix: u64) -> Result<RegistryView, RegistryError> {
    let c = stored(r.challenges, challenge_id);
    if challenge_id >= r.challenge_count {
        Err(RegistryError::UnknownChallenge)
    } else if c[2] != CHALLENGE_OPEN {
        Err(RegistryError::ChallengeNotOpen)
    } else if !is_registered(r, acceptor) {
        Err(RegistryError::NotRegistered)
    } else if acceptor == c[0] {
        Err(RegistryError::OwnChallenge)
    } else {
        let game_id = r.game_count;
        Ok(RegistryView {
            challenges: r.challenges.insert(challenge_id, [c[0], c[1], CHALLENGE_ACCEPTED, 0u64]),
            games: r.games.insert(game_id, [c[0], acceptor, GAME_ACTIVE, game_contract_prefix]),
            game_count: felt((game_id + 1) as u64),
            ..r
        })
    }
}

/// Cancelling a challenge: it must have been posted and be open, and the caller must be
/// its challenger.
pub open spec fn cancel_spec(r: RegistryView, caller: u64, challenge_id: u64) -> Result<RegistryView, RegistryError> {
    let c = stored(r.challenges, challenge_id);
    if challenge_id >= r.challenge_count {
        Err(RegistryError::UnknownChallenge)
    } else if c[2] != CHALLENGE_OPEN {
        Err(RegistryError::ChallengeNotOpen)
    } else if caller != c[0] {
        Err(RegistryError::NotChallenger)
    } else {
        Ok(RegistryView {
            challenges: r.challenges.insert(challenge_id, [c[0], c[1], CHALLENGE_CANCELLED, 0u64]),
            ..r
        })
    }
}

/// The statistics word of an agent after a result, with the registration sentinel.
pub open spec fn stats_after(old_stats: [u64; 4], is_white: bool, status: u64) -> (int, int, int) {
    result_counts(old_stats[0], old_stats[1], old_stats[2], is_white, status)
}

pub open spec fn counts_fit(c: (int, int, int)) -> bool {
    c.0 < FIELD_MODULUS && c.1 < FIELD_MODULUS && c.2 < FIELD_MODULUS
}

/// Recording a game result: the game must have been created and be active, the reporter
/// its recorded game contract and the status a final one; the game takes the status, then the white and
/// the black agent's statistics are updated in turn (and marked registered).
pub open spec fn record_spec(r: RegistryView, game_id: u64, status: u64, reporter: u64) -> Result<RegistryView, RegistryError> {
    let g = stored(r.games, game_id);
    let white = g[0];
    let black = g[1];
    let w_new = stats_after(stored(r.agents_stats, white), true, status);
    let stats1 = r.agents_stats.insert(white, [w_new.0 as u64, w_new.1 as u64, w_new.2 as u64, REGISTERED]);
    let b_new = stats_after(stored(stats1, black), false, status);
    if game_id >= r.game_count {
        Err(RegistryError::UnknownGame)
    } else if g[2] != GAME_ACTIVE {
        Err(RegistryError::GameSettled)
    } else if reporter != g[3] {
        Err(RegistryError::UnauthorizedReporter)
    } else if !(status == GAME_WHITE_WINS || status == GAME_BLACK_WINS || status == GAME_DRAW) {
        Err(RegistryError::InvalidResult)
    } else if !counts_fit(w_new) || !counts_fit(b_new) {
        Err(RegistryError::FieldOverflow)
    } else {
        Ok(RegistryView {
            games: r.games.insert(game_id, [white, black, status, g[3]]),
            agents_stats: stats1.insert(black, [b_new.0 as u64, b_new.1 as u64, b_new.2 as u64, REGISTERED]),
            ..r
        })
    }
}

/// The word stored under an id or prefix key [k, 0, 0, 0]; keys of any other shape are
/// never written, so they read as zero.
pub open spec fn stored_at_key(m: Map<u64, [u64; 4]>, key: [u64; 4]) -> [u64; 4] {
    if key[1] == 0 && key[2] == 0 && key[3] == 0 {
        stored(m, key[0])
    } else {
        [0u64, 0, 0, 0]
    }
}

fn lookup(m: &HashMap<u64, [u64; 4]>, k: u64) -> (w: [u64; 4])
    ensures
        w == stored(m@, k),
{
    match m.get(&k) {
        Some(v) => *v,
        None => [0u64, 0, 0, 0],
    }
}

fn lookup_key(m: &HashMap<u64, [u64; 4]>, key: [u64; 4]) -> (w: [u64; 4])
    ensures
        w == stored_at_key(m@, key),
{
    if key[1] == 0 && key[2] == 0 && key[3] == 0 {
        lookup(m, key[0])
    } else {
        [0u64, 0, 0, 0]
    }
}

impl RegistryState {
    /// An empty registry.
    pub fn new() -> (r: Self)
        ensures
            r@.agent_count == 0 && r@.challenge_count == 0 && r@.game_count == 0,
            r@.registry_name == [0u64, 0, 0, 0] && r@.game_start_root == [0u64, 0, 0, 0],
            r@.agents_name == Map::<u64, [u64; 4]>::empty(),
            r@.agents_stats == Map::<u64, [u64; 4]>::empty(),
            r@.challenges == Map::<u64, [u64; 4]>::empty(),
            ids_issued(r@),
            r@.challenge_assets == Map::<u64, [u64; 4]>::empty(),
            r@.games == Map::<u64, [u64; 4]>::empty(),
            registry_well_formed(r@),
    {
        RegistryState {
            registry_name: [0u64, 0, 0, 0],
            agent_count: 0,
            challenge_count: 0,
            game_count: 0,
            game_start_root: [0u64, 0, 0, 0],
            agents_name: HashMap::new(),
            agents_stats: HashMap::new(),
            challenges: HashMap::new(),
            challenge_assets: HashMap::new(),
            games: HashMap::new(),
        }
    }

    /// One-time setup: the registry's display name and the root of the game-start note
    /// script.
    pub fn initialize(&mut self, name: [u64; 4], game_start_root: [u64; 4])
        ensures
            final(self)@ == (RegistryView { registry_name: name, game_start_root: game_start_root, ..old(self)@ }),
    {
        self.registry_name = name;
        self.game_start_root = game_start_root;
    }

    /// Register the calling account (`caller_prefix`) as an agent with `name`.
    /// Re-registering with a new name keeps the statistics.
    pub fn register_agent(&mut self, caller_prefix: u64, name: [u64; 4])
        requires
            registry_well_formed(old(self)@),
        ensures
            final(self)@ == register_spec(old(self)@, caller_prefix, name),
            registry_well_formed(final(self)@),
    {
        self.agents_name.insert(caller_prefix, name);
        let stats = lookup(&self.agents_stats, caller_prefix);
        let already_registered = stats[3] == REGISTERED;
        if !already_registered {
            let current = self.agent_count;
            self.agent_count = to_felt(current + 1);
            let new_stats = [0u64, 0, 0, REGISTERED];
            self.agents_stats.insert(caller_prefix, new_stats);
        }
        proof {
            let want = register_spec(old(self)@, caller_prefix, name);
            assert(self@.agents_name =~= want.agents_name);
            assert(self@.agents_stats =~= want.agents_stats);
        }
    }

    /// Post an open challenge: `wager_info` = [wager_amount, 0, 0, 0] (0 = no wager) and
    /// the wager asset key (zeros if no wager).
    pub fn post_challenge(&mut self, caller_prefix: u64, wager_info: [u64; 4], asset_key: [u64; 4]) -> (res: Result<(), RegistryError>)
        requires
            registry_well_formed(old(self)@),
            canonical(caller_prefix),
            canonical(wager_info[0]),
        ensures
            registry_well_formed(final(self)@),
            match post_spec(old(self)@, caller_prefix, wager_info[0], asset_key) {
                Ok(next) => res is Ok && final(self)@ == next,
                Err(e) => res == Err::<(), RegistryError>(e) && final(self)@ == old(self)@,
            },
    {
        let stats = lookup(&self.agents_stats, caller_prefix);
        if stats[3] != REGISTERED {
            return Err(RegistryError::NotRegistered);
        }
        let wager_amount = wager_info[0];
        let id = self.challenge_count;
        let record = [caller_prefix, wager_amount, CHALLENGE_OPEN, 0u64];
        self.challenges.insert(id, record);
        self.challenge_assets.insert(id, asset_key);
        self.challenge_count = to_felt(id + 1);
        proof {
            let want = post_spec(old(self)@, caller_prefix, wager_amount, asset_key)->Ok_0;
            assert(self@.challenges =~= want.challenges);
            assert(self@.challenge_assets =~= want.challenge_assets);
        }
        Ok(())
    }

    /// Accept an open challenge (`challenge_info` = [challenge_id, 0, 0, 0]) on behalf of
    /// `acceptor_prefix`, recording the game contract (`game_contract` = [prefix, 0, 0, 0]).
    pub fn accept_challenge(&mut self, acceptor_prefix: u64, challenge_info: [u64; 4], game_contract: [u64; 4]) -> (res: Result<(), RegistryError>)
        requires
            registry_well_formed(old(self)@),
            canonical(acceptor_prefix),
            canonical(game_contract[0]),
        ensures
            registry_well_formed(final(self)@),
            match accept_spec(old(self)@, acceptor_prefix, challenge_info[0], game_contract[0]) {
                Ok(next) => res is Ok && final(self)@ == next,
                Err(e) => res == Err::<(), RegistryError>(e) && final(self)@ == old(self)@,
            },
    {
        let challenge_id = challenge_info[0];
        if challenge_id >= self.challenge_count {
            return Err(RegistryError::UnknownChallenge);
        }
        let record = lookup(&self.challenges, challenge_id);
        let challenger_prefix = record[0];
        let wager_amount = record[1];
        let status = record[2];
        if status != CHALLENGE_OPEN {
            return Err(RegistryError::ChallengeNotOpen);
        }
        // The acceptor must be registered.

        let acc_stats = lookup(&self.agents_stats, acceptor_prefix);
        if acc_stats[3] != REGISTERED {
            return Err(RegistryError::NotRegistered);
        }
        // An agent cannot accept its own challenge.

        if acceptor_prefix == challenger_prefix {
            return Err(RegistryError::OwnChallenge);
        }
        let updated_challenge = [challenger_prefix, wager_amount, CHALLENGE_ACCEPTED, 0u64];
        self.challenges.insert(challenge_id, updated_challenge);
        // Create the game record (challenger = white, acceptor = black).

        let game_id = self.game_count;
        let gc_prefix = game_contract[0];
        let game_record = [challenger_prefix, acceptor_prefix, GAME_ACTIVE, gc_prefix];
        self.games.insert(game_id, game_record);
        self.game_count = to_felt(game_id + 1);
        proof {
            let want = accept_spec(old(self)@, acceptor_prefix, challenge_id, gc_prefix)->Ok_0;
            assert(self@.challenges =~= want.challenges);
            assert(self@.games =~= want.games);
        }
        Ok(())
    }

    /// Cancel an open challenge (`challenge_info` = [challenge_id, 0, 0, 0]); only the
    /// challenger may cancel.
    pub fn cancel_challenge(&mut self, caller_prefix: u64, challenge_info: [u64; 4]) -> (res: Result<(), RegistryError>)
        requires
            registry_well_formed(old(self)@),
        ensures
            registry_well_formed(final(self)@),
            match cancel_spec(old(self)@, caller_prefix, challenge_info[0]) {
                Ok(next) => res is Ok && final(self)@ == next,
                Err(e) => res == Err::<(), RegistryError>(e) && final(self)@ == old(self)@,
            },
    {
        let challenge_id = challenge_info[0];
        if challenge_id >= self.challenge_count {
            return Err(RegistryError::UnknownChallenge);
        }
        let record = lookup(&self.challenges, challenge_id);
        let challenger_prefix = record[0];
        let wager_amount = record[1];
        let status = record[2];
        if status != CHALLENGE_OPEN {
            return Err(RegistryError::ChallengeNotOpen);
        }
        if caller_prefix != challenger_prefix {
            return Err(RegistryError::NotChallenger);
        }
        let updated = [challenger_prefix, wager_amount, CHALLENGE_CANCELLED, 0u64];
        self.challenges.insert(challenge_id, updated);
        proof {
            let want = cancel_spec(old(self)@, caller_prefix, challenge_id)->Ok_0;
            assert(self@.challenges =~= want.challenges);
        }
        Ok(())
    }

    /// Record a settled game result: `game_info` = [game_id, 0, 0, 0] and `result` =
    /// [status (1 = white wins, 2 = black wins, 3 = draw), game_contract_prefix, 0, 0].
    pub fn record_game_result(&mut self, game_info: [u64; 4], result: [u64; 4]) -> (res: Result<(), RegistryError>)
        requires
            registry_well_formed(old(self)@),
        ensures
            registry_well_formed(final(self)@),
            match record_spec(old(self)@, game_info[0], result[0], result[1]) {
                Ok(next) => res is Ok && final(self)@ == next,
                Err(e) => res == Err::<(), RegistryError>(e) && final(self)@ == old(self)@,
            },
    {
        let game_id = game_info[0];
        if game_id >= self.game_count {
            return Err(RegistryError::UnknownGame);
        }
        let game = lookup(&self.games, game_id);
        let white_prefix = game[0];
        let black_prefix = game[1];
        let cur_status = game[2];
        let gc_prefix = game[3];
        if cur_status != GAME_ACTIVE {
            return Err(RegistryError::GameSettled);
        }
        let new_status = result[0];
        let caller_gc = result[1];
        // Only the recorded game contract may report the result.

        if caller_gc != gc_prefix {
            return Err(RegistryError::UnauthorizedReporter);
        }
        if !(new_status == GAME_WHITE_WINS || new_status == GAME_BLACK_WINS || new_status == GAME_DRAW) {
            return Err(RegistryError::InvalidResult);
        }
        // New white statistics.

        let w_stats = lookup(&self.agents_stats, white_prefix);
        let (ww2, wl2, wd2) = apply_result_counts(w_stats[0], w_stats[1], w_stats[2], true, new_status);
        let w_word = [ww2, wl2, wd2, REGISTERED];
        // New black statistics, as read after the white update.

        let b_stats = if black_prefix == white_prefix {
            w_word
        } else {
            lookup(&self.agents_stats, black_prefix)
        };
        let (bw2, bl2, bd2) = apply_result_counts(b_stats[0], b_stats[1], b_stats[2], false, new_status);
        if ww2 >= FIELD_MODULUS || wl2 >= FIELD_MODULUS || wd2 >= FIELD_MODULUS || bw2 >= FIELD_MODULUS
            || bl2 >= FIELD_MODULUS || bd2 >= FIELD_MODULUS {
            return Err(RegistryError::FieldOverflow);
        }
        let ghost stats1 = self@.agents_stats.insert(white_prefix, w_word);
        assert(b_stats == stored(stats1, black_prefix));
        let updated_game = [white_prefix, black_prefix, new_status, gc_prefix];
        self.games.insert(game_id, updated_game);
        self.agents_stats.insert(white_prefix, w_word);
        self.agents_stats.insert(black_prefix, [bw2, bl2, bd2, REGISTERED]);
        proof {
            let want = record_spec(old(self)@, game_id, new_status, caller_gc)->Ok_0;
            assert(self@.games =~= want.games);
            assert(self@.agents_stats =~= want.agents_stats);
        }
        Ok(())
    }

    /// The stored name for an agent key [prefix, 0, 0, 0].
    pub fn get_agent_name(&self, agent_key: [u64; 4]) -> (w: [u64; 4])
        ensures
            w == stored_at_key(self@.agents_name, agent_key),
    {
        lookup_key(&self.agents_name, agent_key)
    }

    /// [wins, losses, draws, REGISTERED] for an agent key [prefix, 0, 0, 0].
    pub fn get_agent_stats(&self, agent_key: [u64; 4]) -> (w: [u64; 4])
        ensures
            w == stored_at_key(self@.agents_stats, agent_key),
    {
        lookup_key(&self.agents_stats, agent_key)
    }

    /// [challenger_prefix, wager_amount, status, 0] for a challenge key [id, 0, 0, 0].
    pub fn get_challenge(&self, challenge_key: [u64; 4]) -> (w: [u64; 4])
        ensures
            w == stored_at_key(self@.challenges, challenge_key),
    {
        lookup_key(&self.challenges, challenge_key)
    }

    /// [white_prefix, black_prefix, status, game_contract_prefix] for a game key [id, 0, 0, 0].
    pub fn get_game(&self, game_key: [u64; 4]) -> (w: [u64; 4])
        ensures
            w == stored_at_key(self@.games, game_key),
    {
        lookup_key(&self.games, game_key)
    }

    /// [agent_count, challenge_count, game_count, 0].
    pub fn get_counts(&self) -> (w: [u64; 4])
        ensures
            w == [self.agent_count, self.challenge_count, self.game_count, 0u64],
    {
        [self.agent_count, self.challenge_count, self.game_count, 0u64]
    }
}

// ── Laws of the registry ────────────────────────────────────────────────────

/// One registry operation with its arguments.
pub enum RegistryOp {
    Register { prefix: u64, name: [u64; 4] },
    Post { prefix: u64, wager_amount: u64, asset_key: [u64; 4] },
    Accept { acceptor: u64, challenge_id: u64, game_contract_prefix: u64 },
    Cancel { caller: u64, challenge_id: u64 },
    Record { game_id: u64, status: u64, reporter: u64 },
}

/// The outcome of one operation on the registry.
pub open spec fn registry_step(r: RegistryView, op: RegistryOp) -> Result<RegistryView, RegistryError> {
    match op {
        RegistryOp::Register { prefix, name } => Ok(register_spec(r, prefix, name)),
        RegistryOp::Post { prefix, wager_amount, asset_key } => post_spec(r, prefix, wager_amount, asset_key),
        RegistryOp::Accept { acceptor, challenge_id, game_contract_prefix } => accept_spec(
            r,
            acceptor,
            challenge_id,
            game_contract_prefix,
        ),
        RegistryOp::Cancel { caller, challenge_id } => cancel_spec(r, caller, challenge_id),
        RegistryOp::Record { game_id, status, reporter } => record_spec(r, game_id, status, reporter),
    }
}

/// Every stored challenge, challenge asset and game lies under an id that was issued:
/// below the matching counter.
pub open spec fn ids_issued(r: RegistryView) -> bool {
    &&& forall|k: u64| #[trigger] r.challenges.contains_key(k) ==> k < r.challenge_count
    &&& forall|k: u64| #[trigger] r.challenge_assets.contains_key(k) ==> k < r.challenge_count
    &&& forall|k: u64| #[trigger] r.games.contains_key(k) ==> k < r.game_count
}

/// Every operation keeps records under issued ids, as long as the counters do not wrap at
/// the field modulus.
pub proof fn lemma_ids_issued_step(r: RegistryView, op: RegistryOp)
    requires
        ids_issued(r),
        registry_step(r, op) is Ok,
        r.challenge_count + 1 < FIELD_MODULUS,
        r.game_count + 1 < FIELD_MODULUS,
    ensures
        ids_issued(registry_step(r, op)->Ok_0),
{
}

/// An accepted or cancelled challenge never changes again.
pub proof fn lemma_settled_challenge_stays(r: RegistryView, op: RegistryOp, id: u64)
    requires
        registry_step(r, op) is Ok,
        ids_issued(r),
        stored(r.challenges, id)[2] != CHALLENGE_OPEN,
    ensures
        stored(registry_step(r, op)->Ok_0.challenges, id) == stored(r.challenges, id),
{
}

/// A settled game never changes again.
pub proof fn lemma_settled_game_stays(r: RegistryView, op: RegistryOp, id: u64)
    requires
        registry_step(r, op) is Ok,
        ids_issued(r),
        stored(r.games, id)[2] != GAME_ACTIVE,
    ensures
        stored(registry_step(r, op)->Ok_0.games, id) == stored(r.games, id),
{
}

/// Registration is permanent.
pub proof fn lemma_registration_stays(r: RegistryView, op: RegistryOp, prefix: u64)
    requires
        registry_step(r, op) is Ok,
        is_registered(r, prefix),
    ensures
        is_registered(registry_step(r, op)->Ok_0, prefix),
{
}

/// Every stored statistics word carries the registration sentinel.
pub open spec fn stats_marked(r: RegistryView) -> bool {
    forall|k: u64| #[trigger] r.agents_stats.contains_key(k) ==> r.agents_stats[k][3] == REGISTERED
}

/// Statistics words stay marked, and wins, losses and draws never decrease.
pub proof fn lemma_stats_only_grow(r: RegistryView, op: RegistryOp, prefix: u64)
    requires
        registry_step(r, op) is Ok,
        stats_marked(r),
    ensures
        stats_marked(registry_step(r, op)->Ok_0),
        stored(registry_step(r, op)->Ok_0.agents_stats, prefix)[0] >= stored(r.agents_stats, prefix)[0],
        stored(registry_step(r, op)->Ok_0.agents_stats, prefix)[1] >= stored(r.agents_stats, prefix)[1],
        stored(registry_step(r, op)->Ok_0.agents_stats, prefix)[2] >= stored(r.agents_stats, prefix)[2],
{
    let next = registry_step(r, op)->Ok_0;
    assert forall|k: u64| #[trigger] next.agents_stats.contains_key(k) implies next.agents_stats[k][3] == REGISTERED by {
        if r.agents_stats.contains_key(k) {
            assert(r.agents_stats[k][3] == REGISTERED);
        }
    }
    if let RegistryOp::Register { prefix: p, name } = op {
        if !is_registered(r, p) {
            assert(!r.agents_stats.contains_key(p));
        }
    }
}

/// The counters only ever move on by one (as field elements).
pub proof fn lemma_counters_step(r: RegistryView, op: RegistryOp)
    requires
        registry_step(r, op) is Ok,
    ensures
        registry_step(r, op)->Ok_0.agent_count == r.agent_count || registry_step(r, op)->Ok_0.agent_count
            == felt((r.agent_count + 1) as u64),
        registry_step(r, op)->Ok_0.challenge_count == r.challenge_count || registry_step(r, op)->Ok_0.challenge_count
            == felt((r.challenge_count + 1) as u64),
        registry_step(r, op)->Ok_0.game_count == r.game_count || registry_step(r, op)->Ok_0.game_count
            == felt((r.game_count + 1) as u64),
{
}

/// A recorded result of a game between two different agents counts it once for each:
/// after a white win white has one more win and black one more loss, after a black win
/// the reverse, after a draw each has one more draw; the game takes the status.
pub proof fn lemma_recorded_result_counts(r: RegistryView, game_id: u64, status: u64, reporter: u64)
    requires
        record_spec(r, game_id, status, reporter) is Ok,
        stored(r.games, game_id)[0] != stored(r.games, game_id)[1],
    ensures
        ({
            let next = record_spec(r, game_id, status, reporter)->Ok_0;
            let g = stored(r.games, game_id);
            let w = stored(r.agents_stats, g[0]);
            let b = stored(r.agents_stats, g[1]);
            let w2 = stored(next.agents_stats, g[0]);
            let b2 = stored(next.agents_stats, g[1]);
            &&& stored(next.games, game_id) == [g[0], g[1], status, g[3]]
            &&& w2[3] == REGISTERED && b2[3] == REGISTERED
            &&& status == GAME_WHITE_WINS ==> w2[0] == w[0] + 1 && w2[1] == w[1] && w2[2] == w[2] && b2[0] == b[0]
                && b2[1] == b[1] + 1 && b2[2] == b[2]
            &&& status == GAME_BLACK_WINS ==> w2[0] == w[0] && w2[1] == w[1] + 1 && w2[2] == w[2] && b2[0] == b[0]
                + 1 && b2[1] == b[1] && b2[2] == b[2]
            &&& status == GAME_DRAW ==> w2[0] == w[0] && w2[1] == w[1] && w2[2] == w[2] + 1 && b2[0] == b[0]
                && b2[1] == b[1] && b2[2] == b[2] + 1
        }),
{
}

} // verus!
