//! Analysis requests: engines, work and its sanitization.
use vstd::prelude::*;
use crate::chess::{
    fen_of, legal_fen, parse_fen, play_of, play_uci, position_of, setup_position, UciMove,
};
use crate::ids::{ClientSecret, EngineId, JobId, ProviderSecret, ProviderSelector, SessionId, UserId};
use crate::model::{MultiPv, UciVariant};
use crate::uci::moves_wf;
use shakmaty::variant::VariantPosition;

verus! {

/// Most moves a piece of work may carry.
pub const MAX_MOVES: usize = 600;

/// How long the engine should search.
#[derive(Debug, Clone, Copy, PartialEq, Eq, Structural)]
pub enum Search {
    /// Milliseconds.
    Movetime(u32),
    Depth(u32),
    Nodes(u64),
}

/// A registered engine's settings.
#[derive(Debug, Clone)]
pub struct EngineConfig {
    pub name: String,
    pub client_secret: ClientSecret,
    pub user_id: UserId,
    pub max_threads: u32,
    pub max_hash: u32,
    pub default_depth: Option<u32>,
    pub variants: Vec<UciVariant>,
    pub provider_data: Option<String>,
}

#[derive(Debug, Clone)]
pub struct Engine {
    pub id: EngineId,
    pub config: EngineConfig,
}

/// An engine as stored in the registry, with the selector of its provider.
#[derive(Debug, Clone)]
pub struct ExternalEngine {
    pub id: EngineId,
    pub provider_selector: ProviderSelector,
    pub config: EngineConfig,
}

impl ExternalEngine {
    pub fn into_engine_and_selector(self) -> (r: (Engine, ProviderSelector))
        ensures
            r.0.id == self.id,
            r.0.config == self.config,
            r.1 == self.provider_selector,
    {
        (Engine { id: self.id, config: self.config }, self.provider_selector)
    }
}

/// What a requester asks an engine to analyse.
#[derive(Debug, Clone)]
pub struct Work {
    pub session_id: SessionId,
    pub threads: u32,
    pub hash: u32,
    pub search: Search,
    pub multi_pv: MultiPv,
    pub variant: UciVariant,
    pub initial_fen: String,
    pub moves: Vec<UciMove>,
}

/// Why a piece of work was refused.
#[derive(Debug, Clone, Copy, PartialEq, Eq, Structural)]
pub enum InvalidWorkError {
    /// The initial position is no FEN, or not legal in the variant.
    Position,
    /// A move is not legal where it is played.
    IllegalUci,
    TooManyMoves,
    UnsupportedVariant,
}

#[derive(Debug, Clone)]
pub struct AnalyseRequest {
    pub client_secret: ClientSecret,
    pub work: Work,
}

#[derive(Debug, Clone)]
pub struct AcquireRequest {
    pub provider_secret: ProviderSecret,
}

#[derive(Debug, Clone)]
pub struct AcquireResponse {
    pub id: JobId,
    pub work: Work,
    pub engine: Engine,
}

pub open spec fn min_u32(a: u32, b: u32) -> u32 {
    if a < b {
        a
    } else {
        b
    }
}

pub open spec fn supports(engine: Engine, v: UciVariant) -> bool {
    engine.config.variants@.contains(v)
}

impl Engine {
    /// Whether the engine analyses variant `v`.
    pub fn supports(&self, v: UciVariant) -> (r: bool)
        ensures
            r == supports(*self, v),
    {
        let mut i: usize = 0;
        while i < self.config.variants.len()
            invariant
                i <= self.config.variants@.len(),
                forall|j: int| 0 <= j < i ==> self.config.variants@[j] != v,
            decreases self.config.variants.len() - i,
        {
            if self.config.variants[i] == v {
                return true;
            }
            i = i + 1;
        }
        false
    }
}

impl Work {
    /// The work with its initial position and moves as given, and threads
    /// and hash cut down to what the engine allows.
    pub fn with_limits(self, engine: &Engine, initial_fen: String, moves: Vec<UciMove>) -> (r: Work)
        ensures
            r.threads == min_u32(self.threads, engine.config.max_threads),
            r.hash == min_u32(self.hash, engine.config.max_hash),
            r.session_id == self.session_id,
            r.search == self.search,
            r.multi_pv == self.multi_pv,
            r.variant == self.variant,
            r.initial_fen == initial_fen,
            r.moves == moves,
    {
        let threads = if self.threads < engine.config.max_threads {
            self.threads
        } else {
            engine.config.max_threads
        };
        let hash = if self.hash < engine.config.max_hash {
            self.hash
        } else {
            engine.config.max_hash
        };
        Work {
            session_id: self.session_id,
            threads,
            hash,
            search: self.search,
            multi_pv: self.multi_pv,
            variant: self.variant,
            initial_fen,
            moves,
        }
    }

    /// Checks the work against the engine: the variant must be supported,
    /// the initial position legal, at most 600 moves, each legal in turn.
    /// Returns the work with the position and moves rewritten in canonical
    /// Chess960 form and threads and hash within the engine's limits, and
    /// the position after the moves. Errors are reported in that order.
    pub fn sanitize(self, engine: &Engine) -> (r: Result<(Work, VariantPosition), InvalidWorkError>)
        requires
            moves_wf(self.moves@),
        ensures
            match sanitize_outcome(self, *engine) {
                Err(e) => r == Err::<(Work, VariantPosition), InvalidWorkError>(e),
                Ok((fen, moves, end)) => r matches Ok((w, p)) && w.initial_fen@ == fen
                    && w.moves@ == moves && p == end,
            },
            r matches Ok((w, _)) ==> {
                &&& w.threads == min_u32(self.threads, engine.config.max_threads)
                &&& w.hash == min_u32(self.hash, engine.config.max_hash)
                &&& w.session_id == self.session_id
                &&& w.search == self.search
                &&& w.multi_pv == self.multi_pv
                &&& w.variant == self.variant
                &&& supports(*engine, w.variant)
                &&& w.moves@.len() == self.moves@.len() <= MAX_MOVES
                &&& moves_wf(w.moves@)
                &&& (self.threads >= 1 && engine.config.max_threads >= 1 ==> w.threads >= 1)
                &&& (self.hash >= 1 && engine.config.max_hash >= 1 ==> w.hash >= 1)
            },
    {
        if !engine.supports(self.variant) {
            return Err(InvalidWorkError::UnsupportedVariant);
        }
        let fen = match parse_fen(self.initial_fen.as_str()) {
            Some(fen) => fen,
            None => return Err(InvalidWorkError::Position),
        };
        let mut pos = match setup_position(self.variant, fen) {
            Some(pos) => pos,
            None => return Err(InvalidWorkError::Position),
        };
        let ghost start = pos;
        let initial_fen = legal_fen(&pos);
        if self.moves.len() > MAX_MOVES {
            return Err(InvalidWorkError::TooManyMoves);
        }
        let mut moves: Vec<UciMove> = Vec::new();
        let mut i: usize = 0;
        proof {
            assert(self.moves@.subrange(0, 0) =~= Seq::<UciMove>::empty());
            assert(moves@ =~= Seq::<UciMove>::empty());
        }
        while i < self.moves.len()
            invariant
                i <= self.moves@.len(),
                moves_wf(self.moves@),
                moves_wf(moves@),
                replay(start, self.moves@.subrange(0, i as int)) == Some((moves@, pos)),
                moves@.len() == i,
                supports(*engine, self.variant),
                position_of(self.variant, self.initial_fen@) == Some(start),
                initial_fen@ == fen_of(start),
                self.moves@.len() <= MAX_MOVES,
            decreases self.moves.len() - i,
        {
            let ghost before = pos;
            let ghost prefix = self.moves@.subrange(0, i as int + 1);
            proof {
                assert(prefix.drop_last() =~= self.moves@.subrange(0, i as int));
                assert(prefix.last() == self.moves@[i as int]);
            }
            match play_uci(&mut pos, &self.moves[i]) {
                Some(u) => {
                    moves.push(u);
                },
                None => {
                    proof {
                        lemma_replay_stuck(start, self.moves@, i as int + 1);
                    }
                    return Err(InvalidWorkError::IllegalUci);
                },
            }
            i = i + 1;
        }
        proof {
            assert(self.moves@.subrange(0, self.moves@.len() as int) =~= self.moves@);
        }
        let work = self.with_limits(engine, initial_fen, moves);
        Ok((work, pos))
    }
}

/// The moves played from `pos` in turn: their Chess960 forms and the
/// position after the last, or `None` where one is not legal.
pub open spec fn replay(pos: VariantPosition, ms: Seq<UciMove>) -> Option<
    (Seq<UciMove>, VariantPosition),
>
    decreases ms.len(),
{
    if ms.len() == 0 {
        Some((Seq::empty(), pos))
    } else {
        match replay(pos, ms.drop_last()) {
            None => None,
            Some((out, p)) => match play_of(p, ms.last()) {
                None => None,
                Some((u, p2)) => Some((out.push(u), p2)),
            },
        }
    }
}

/// Once a prefix of the moves does not replay, neither do the moves.
pub proof fn lemma_replay_stuck(pos: VariantPosition, ms: Seq<UciMove>, k: int)
    requires
        0 <= k <= ms.len(),
        replay(pos, ms.subrange(0, k)) is None,
    ensures
        replay(pos, ms) is None,
    decreases ms.len() - k,
{
    if k < ms.len() {
        let p = ms.subrange(0, k + 1);
        assert(p.drop_last() =~= ms.subrange(0, k));
        lemma_replay_stuck(pos, ms, k + 1);
    } else {
        assert(ms.subrange(0, k) =~= ms);
    }
}

/// The outcome of sanitizing `w` for `engine`: the first failing check, in
/// the order variant, initial position, number of moves, legality of moves;
/// else the canonical FEN of the initial position, the moves in Chess960
/// form and the position after them.
pub open spec fn sanitize_outcome(w: Work, engine: Engine) -> Result<
    (Seq<char>, Seq<UciMove>, VariantPosition),
    InvalidWorkError,
> {
    if !supports(engine, w.variant) {
        Err(InvalidWorkError::UnsupportedVariant)
    } else {
        match position_of(w.variant, w.initial_fen@) {
            None => Err(InvalidWorkError::Position),
            Some(start) => if w.moves@.len() > MAX_MOVES {
                Err(InvalidWorkError::TooManyMoves)
            } else {
                match replay(start, w.moves@) {
                    None => Err(InvalidWorkError::IllegalUci),
                    Some((moves, end)) => Ok((fen_of(start), moves, end)),
                }
            },
        }
    }
}

/// Cutting threads and hash down to the engine's limits a second time
/// changes nothing.
pub proof fn lemma_limits_idempotent(threads: u32, hash: u32, max_threads: u32, max_hash: u32)
    ensures
        min_u32(min_u32(threads, max_threads), max_threads) == min_u32(threads, max_threads),
        min_u32(min_u32(hash, max_hash), max_hash) == min_u32(hash, max_hash),
{
}

} // verus!
