//! Rolling `info` lines up into progress snapshots for the requester.
use vstd::prelude::*;
use crate::chess::{copy_position, play_of, play_uci, white_of, white_to_move, UciMove};
use crate::model::MultiPv;
use crate::uci::{moves_wf, parse_line, Eval, InfoView, ProtocolError, UciOut, UciOutView};
use shakmaty::variant::VariantPosition;

verus! {

/// Most plies of a principal variation passed on.
pub const MAX_PV_PLIES: usize = 30;

/// One principal variation of a snapshot.
#[derive(Debug, Clone)]
pub struct EmitPv {
    pub moves: Vec<UciMove>,
    /// From White's point of view.
    pub eval: Eval,
    pub depth: u32,
}

pub struct EmitPvView {
    pub moves: Seq<UciMove>,
    pub eval: Eval,
    pub depth: u32,
}

impl View for EmitPv {
    type V = EmitPvView;

    open spec fn view(&self) -> EmitPvView {
        EmitPvView { moves: self.moves@, eval: self.eval, depth: self.depth }
    }
}

/// A progress snapshot: search time in milliseconds, depth, nodes and one
/// slot per principal variation.
#[derive(Debug, Clone)]
pub struct Emit {
    pub time: u64,
    pub depth: u32,
    pub nodes: u64,
    pub pvs: Vec<Option<EmitPv>>,
}

pub struct EmitView {
    pub time: u64,
    pub depth: u32,
    pub nodes: u64,
    pub pvs: Seq<Option<EmitPvView>>,
}

/// The law that an `info` line from Black's side is turned around: the
/// emitted evaluation is the opposite of the reported one (the most
/// negative centipawn count, which has no opposite, becomes the most positive).
pub proof fn lemma_black_turns_eval(cp: i64, mate: i32)
    ensures
        cp != i64::MIN ==> oriented_spec(Eval::Cp(cp), false) == Eval::Cp((-cp) as i64),
        mate != i32::MIN ==> oriented_spec(Eval::Mate(mate), false) == Eval::Mate((-mate) as i32),
        oriented_spec(Eval::Cp(cp), true) == Eval::Cp(cp),
        oriented_spec(Eval::Mate(mate), true) == Eval::Mate(mate),
{
}

pub open spec fn opt_pv_view(p: Option<EmitPv>) -> Option<EmitPvView> {
    match p {
        Some(p) => Some(p@),
        None => None,
    }
}

impl View for Emit {
    type V = EmitView;

    open spec fn view(&self) -> EmitView {
        EmitView {
            time: self.time,
            depth: self.depth,
            nodes: self.nodes,
            pvs: self.pvs@.map_values(|p: Option<EmitPv>| opt_pv_view(p)),
        }
    }
}

/// The evaluation with the sides swapped; the most negative centipawn and
/// mate values, which have no opposite, go to the most positive.
pub open spec fn negate(e: Eval) -> Eval {
    match e {
        Eval::Cp(v) => Eval::Cp(if v == i64::MIN {
            i64::MAX
        } else {
            (-v) as i64
        }),
        Eval::Mate(v) => Eval::Mate(if v == i32::MIN {
            i32::MAX
        } else {
            (-v) as i32
        }),
    }
}

/// An evaluation for the side to move, seen from White.
pub open spec fn oriented_spec(e: Eval, white_to_move: bool) -> Eval {
    if white_to_move {
        e
    } else {
        negate(e)
    }
}

/// The `multipv` of an info line, 1 when absent and for `bestmove`.
pub open spec fn multi_pv_of(u: UciOutView) -> nat {
    match u {
        UciOutView::Info(i) => match i.multipv {
            Some(k) => k as nat,
            None => 1,
        },
        UciOutView::Bestmove { .. } => 1,
    }
}

/// Whether the line carries a principal variation to show: depth, score
/// and pv present, and on the first line the score no mere bound.
pub open spec fn emit_worthy(u: UciOutView) -> bool {
    match u {
        UciOutView::Info(i) => {
            &&& i.depth is Some
            &&& i.score is Some
            &&& i.pv is Some
            &&& (multi_pv_of(u) > 1 || (!i.score->0.lowerbound && !i.score->0.upperbound))
        },
        UciOutView::Bestmove { .. } => false,
    }
}

pub open spec fn info_of(u: UciOutView) -> InfoView {
    match u {
        UciOutView::Info(i) => i,
        UciOutView::Bestmove { .. } => crate::uci::empty_info(),
    }
}

/// The slot written for a worthy line, given the moves as replayed and
/// who is to move.
pub open spec fn emit_pv_spec(u: UciOutView, white_to_move: bool, moves: Seq<UciMove>) -> EmitPvView {
    EmitPvView {
        moves,
        eval: oriented_spec(info_of(u).score->0.eval, white_to_move),
        depth: info_of(u).depth->0,
    }
}

pub open spec fn keep_or(old: u64, new: Option<u64>) -> u64 {
    match new {
        Some(v) => v,
        None => old,
    }
}

pub open spec fn keep_or32(old: u32, new: Option<u32>) -> u32 {
    match new {
        Some(v) => v,
        None => old,
    }
}

/// `pvs` with every slot emptied, then grown with empty slots to `k`.
pub open spec fn reset_pvs(pvs: Seq<Option<EmitPvView>>, clear: bool, k: nat) -> Seq<
    Option<EmitPvView>,
> {
    Seq::new(
        if pvs.len() < k {
            k
        } else {
            pvs.len()
        },
        |i: int|
            if i < pvs.len() && !clear {
                pvs[i]
            } else {
                None
            },
    )
}

/// The snapshot after line `u` with `k` its multipv and `pv` what is written
/// to slot `k - 1`, if anything. The first line of an iteration (`k == 1`)
/// takes over time, depth and nodes and empties all slots; a later line
/// lowers the depth to its own.
pub open spec fn apply_spec(e: EmitView, u: UciOutView, k: nat, pv: Option<EmitPvView>) -> EmitView {
    let i = info_of(u);
    let base = EmitView {
        time: if k <= 1 {
            keep_or(e.time, i.time)
        } else {
            e.time
        },
        depth: if k <= 1 {
            keep_or32(e.depth, i.depth)
        } else {
            match i.depth {
                Some(d) => if d < e.depth {
                    d
                } else {
                    e.depth
                },
                None => e.depth,
            }
        },
        nodes: if k <= 1 {
            keep_or(e.nodes, i.nodes)
        } else {
            e.nodes
        },
        pvs: reset_pvs(e.pvs, k <= 1, k),
    };
    match pv {
        Some(p) => EmitView { pvs: base.pvs.update(k - 1, Some(p)), ..base },
        None => base,
    }
}

/// Whether the snapshot is complete: at least one slot, none empty.
pub open spec fn ready(e: EmitView) -> bool {
    e.pvs.len() > 0 && forall|i: int| 0 <= i < e.pvs.len() ==> (#[trigger] e.pvs[i]) is Some
}

/// Turns an evaluation for the side to move into one seen from White.
pub fn oriented(e: Eval, white_to_move: bool) -> (r: Eval)
    ensures
        r == oriented_spec(e, white_to_move),
{
    if white_to_move {
        e
    } else {
        match e {
            Eval::Cp(v) => Eval::Cp(if v == i64::MIN {
                i64::MAX
            } else {
                -v
            }),
            Eval::Mate(v) => Eval::Mate(if v == i32::MIN {
                i32::MAX
            } else {
                -v
            }),
        }
    }
}

/// At most `n` moves of `pv` played from `pos`, up to the first that is
/// not legal, in Chess960 notation.
pub open spec fn pv_walk(pos: VariantPosition, pv: Seq<UciMove>, n: nat) -> Seq<UciMove>
    decreases pv.len(),
{
    if pv.len() == 0 || n == 0 {
        Seq::empty()
    } else {
        match play_of(pos, pv[0]) {
            None => Seq::empty(),
            Some((u, p)) => seq![u] + pv_walk(p, pv.drop_first(), (n - 1) as nat),
        }
    }
}

/// The slot a line writes, seen from `pos`: for a worthy line the principal
/// variation replayed from `pos` and the score turned to White's view.
pub open spec fn extract_spec(u: UciOutView, pos: VariantPosition) -> Option<EmitPvView> {
    if emit_worthy(u) {
        Some(
            emit_pv_spec(
                u,
                white_of(pos),
                pv_walk(pos, info_of(u).pv->0, MAX_PV_PLIES as nat),
            ),
        )
    } else {
        None
    }
}

/// Replays `pv` from `pos`, at most 30 plies, stopping at the first move
/// that is not legal there, and writes each move in Chess960 notation.
pub fn normalize_pv(pv: &Vec<UciMove>, pos: &VariantPosition) -> (r: Vec<UciMove>)
    requires
        moves_wf(pv@),
    ensures
        r@ == pv_walk(*pos, pv@, MAX_PV_PLIES as nat),
        moves_wf(r@),
{
    let mut pos2 = copy_position(pos);
    let mut moves: Vec<UciMove> = Vec::new();
    let mut i: usize = 0;
    proof {
        assert(pv@.subrange(0, pv@.len() as int) =~= pv@);
        assert(moves@ + pv@ =~= pv@);
        assert(moves@ + pv_walk(pos2, pv@, MAX_PV_PLIES as nat) =~= pv_walk(*pos, pv@, MAX_PV_PLIES as nat));
    }
    loop
        invariant
            i <= pv@.len(),
            i <= MAX_PV_PLIES,
            moves_wf(pv@),
            moves_wf(moves@),
            pv_walk(*pos, pv@, MAX_PV_PLIES as nat) == moves@ + pv_walk(
                pos2,
                pv@.subrange(i as int, pv@.len() as int),
                (MAX_PV_PLIES - i) as nat,
            ),
        decreases pv.len() - i,
    {
        let ghost rest = pv@.subrange(i as int, pv@.len() as int);
        if i >= pv.len() || i >= MAX_PV_PLIES {
            proof {
                assert(pv_walk(pos2, rest, (MAX_PV_PLIES - i) as nat) == Seq::<UciMove>::empty());
                assert(moves@ + Seq::<UciMove>::empty() =~= moves@);
            }
            return moves;
        }
        let ghost before = pos2;
        proof {
            assert(rest[0] == pv@[i as int]);
            assert(rest.drop_first() =~= pv@.subrange(i as int + 1, pv@.len() as int));
        }
        match play_uci(&mut pos2, &pv[i]) {
            Some(u) => {
                proof {
                    let tail = pv_walk(pos2, rest.drop_first(), (MAX_PV_PLIES - i - 1) as nat);
                    assert(pv_walk(before, rest, (MAX_PV_PLIES - i) as nat) == seq![u] + tail);
                    assert(moves@.push(u) + tail =~= moves@ + (seq![u] + tail));
                }
                moves.push(u);
            },
            None => {
                proof {
                    assert(pv_walk(before, rest, (MAX_PV_PLIES - i) as nat) == Seq::<UciMove>::empty());
                    assert(moves@ + Seq::<UciMove>::empty() =~= moves@);
                }
                return moves;
            },
        }
        i = i + 1;
    }
}

impl EmitPv {
    /// The multipv of `uci` and, where the line is worth showing, its slot
    /// with the moves replayed from `pos` and the score turned to White's view.
    pub fn extract(uci: &UciOut, pos: &VariantPosition) -> (r: (MultiPv, Option<EmitPv>))
        requires
            uci.wf(),
        ensures
            r.0.spec_get() == multi_pv_of(uci@),
            opt_pv_view(r.1) == extract_spec(uci@, *pos),
            r.1 matches Some(p) ==> moves_wf(p.moves@),
    {
        let multi_pv = match uci {
            UciOut::Info(info) => match info.multipv {
                Some(k) => k,
                None => MultiPv::one(),
            },
            UciOut::Bestmove { .. } => MultiPv::one(),
        };
        let k = multi_pv.get();
        match uci {
            UciOut::Info(info) => match (&info.depth, &info.score, &info.pv) {
                (Some(depth), Some(score), Some(pv)) => if k > 1 || (!score.lowerbound
                    && !score.upperbound) {
                    let moves = normalize_pv(pv, pos);
                    let white = white_to_move(pos);
                    let p = EmitPv { moves, eval: oriented(score.eval, white), depth: *depth };
                    (multi_pv, Some(p))
                } else {
                    (multi_pv, None)
                },
                _ => (multi_pv, None),
            },
            UciOut::Bestmove { .. } => (multi_pv, None),
        }
    }
}

/// What to do after a line of engine output.
#[derive(Debug, Clone, Copy, PartialEq, Eq, Structural)]
pub enum Next {
    /// The line meant nothing to the broker.
    Ignore,
    /// Folded in; the snapshot is not complete yet.
    Continue,
    /// Folded in; send the snapshot.
    Send,
    /// The engine gave its best move: the stream ends.
    Stop,
}

impl Default for Emit {
    fn default() -> (r: Emit)
        ensures
            r.time == 0 && r.depth == 0 && r.nodes == 0 && r.pvs@.len() == 0,
    {
        Emit { time: 0, depth: 0, nodes: 0, pvs: Vec::new() }
    }
}

impl Emit {
    /// An empty snapshot with one empty slot per requested line, so that it
    /// is complete only once every line has reported.
    pub fn with_slots(multi_pv: MultiPv) -> (r: Emit)
        ensures
            r@.time == 0 && r@.depth == 0 && r@.nodes == 0,
            r@.pvs.len() == multi_pv.spec_get(),
            forall|i: int| 0 <= i < r@.pvs.len() ==> r@.pvs[i] is None,
    {
        let n = multi_pv.as_usize();
        let mut pvs: Vec<Option<EmitPv>> = Vec::new();
        while pvs.len() < n
            invariant
                pvs@.len() <= n,
                forall|i: int| 0 <= i < pvs@.len() ==> pvs@[i] is None,
            decreases n - pvs.len(),
        {
            pvs.push(None);
        }
        Emit { time: 0, depth: 0, nodes: 0, pvs }
    }

    /// Folds line `uci`, whose multipv is `multi_pv`, into the snapshot,
    /// writing `emit_pv` (if any) to the slot of that line.
    #[verifier::spinoff_prover]
    pub fn apply(&mut self, uci: &UciOut, multi_pv: MultiPv, emit_pv: Option<EmitPv>)
        ensures
            final(self)@ == apply_spec(
                old(self)@,
                uci@,
                multi_pv.spec_get() as nat,
                opt_pv_view(emit_pv),
            ),
    {
        let k = multi_pv.as_usize();
        let info = match uci {
            UciOut::Info(info) => Some(info),
            UciOut::Bestmove { .. } => None,
        };
        let ghost old_pvs = old(self)@.pvs;
        if k <= 1 {
            if let Some(info) = info {
                if let Some(time) = info.time {
                    self.time = time;
                }
                if let Some(depth) = info.depth {
                    self.depth = depth;
                }
                if let Some(nodes) = info.nodes {
                    self.nodes = nodes;
                }
            }
            let ghost (t0, d0, n0) = (self.time, self.depth, self.nodes);
            let mut i: usize = 0;
            while i < self.pvs.len()
                invariant
                    self.time == t0 && self.depth == d0 && self.nodes == n0,
                    i <= self.pvs@.len(),
                    self.pvs@.len() == old_pvs.len(),
                    forall|j: int| 0 <= j < i ==> self.pvs@[j] is None,
                decreases self.pvs.len() - i,
            {
                self.pvs.set(i, None);
                i = i + 1;
            }
        } else {
            if let Some(info) = info {
                if let Some(depth) = info.depth {
                    if depth < self.depth {
                        self.depth = depth;
                    }
                }
            }
        }
        let ghost cleared = self@.pvs;
        let ghost (t1, d1, n1) = (self.time, self.depth, self.nodes);
        let n = self.pvs.len();
        while self.pvs.len() < k
            invariant
                self.time == t1 && self.depth == d1 && self.nodes == n1,
                n <= self.pvs@.len(),
                self.pvs@.len() <= if n < k {
                    k
                } else {
                    n
                },
                forall|j: int| 0 <= j < n ==> self@.pvs[j] == cleared[j],
                forall|j: int| n <= j < self.pvs@.len() ==> self.pvs@[j] is None,
                cleared.len() == n,
            decreases k - self.pvs.len(),
        {
            self.pvs.push(None);
        }
        let ghost grown = self@.pvs;
        assert(grown =~= reset_pvs(old_pvs, k <= 1, k as nat));
        let ghost had_pv = opt_pv_view(emit_pv);
        let ghost target = apply_spec(old(self)@, uci@, k as nat, had_pv);
        assert(self@.time == target.time);
        assert(self@.depth == target.depth);
        assert(self@.nodes == target.nodes);
        if emit_pv.is_some() {
            self.pvs.set(k - 1, emit_pv);
            assert(self@.pvs =~= grown.update(k - 1, had_pv));
        }
        assert(self@.pvs == target.pvs);
    }

    /// Folds line `uci` into the snapshot: see `apply`, with the multipv and
    /// slot that `EmitPv::extract` finds.
    pub fn update(&mut self, uci: &UciOut, pos: &VariantPosition)
        requires
            uci.wf(),
        ensures
            final(self)@ == apply_spec(
                old(self)@,
                uci@,
                multi_pv_of(uci@),
                extract_spec(uci@, *pos),
            ),
    {
        let (multi_pv, emit_pv) = EmitPv::extract(uci, pos);
        self.apply(uci, multi_pv, emit_pv);
    }

    /// Reads one line of engine output and folds it in: a line that does
    /// not parse is an error and changes nothing, an unknown line is
    /// ignored, `bestmove` ends the stream, and an `info` line asks for the
    /// snapshot to be sent once it is complete.
    pub fn on_line(&mut self, line: &str, pos: &VariantPosition) -> (r: Result<Next, ProtocolError>)
        ensures
            match parse_line(line@) {
                Err(e) => r == Err::<Next, ProtocolError>(e) && final(self)@ == old(self)@,
                Ok(None) => r == Ok::<Next, ProtocolError>(Next::Ignore) && final(self)@ == old(self)@,
                Ok(Some(u)) => {
                    &&& final(self)@ == apply_spec(old(self)@, u, multi_pv_of(u), extract_spec(u, *pos))
                    &&& r == Ok::<Next, ProtocolError>(
                        if u is Bestmove {
                            Next::Stop
                        } else if ready(final(self)@) {
                            Next::Send
                        } else {
                            Next::Continue
                        },
                    )
                },
            },
    {
        match UciOut::from_line(line) {
            Err(e) => Err(e),
            Ok(None) => Ok(Next::Ignore),
            Ok(Some(uci)) => {
                self.update(&uci, pos);
                if let UciOut::Bestmove { .. } = uci {
                    Ok(Next::Stop)
                } else if self.should_emit() {
                    Ok(Next::Send)
                } else {
                    Ok(Next::Continue)
                }
            },
        }
    }

    /// Whether the snapshot is ready to send: it has slots and all are filled.
    pub fn should_emit(&self) -> (r: bool)
        ensures
            r == ready(self@),
    {
        if self.pvs.len() == 0 {
            return false;
        }
        let mut i: usize = 0;
        while i < self.pvs.len()
            invariant
                i <= self.pvs@.len(),
                forall|j: int| 0 <= j < i ==> (#[trigger] self@.pvs[j]) is Some,
            decreases self.pvs.len() - i,
        {
            if self.pvs[i].is_none() {
                assert(self@.pvs[i as int] is None);
                return false;
            }
            i = i + 1;
        }
        true
    }
}

} // verus!
