//! Lines of engine output in the Universal Chess Interface protocol.
use vstd::prelude::*;
use crate::chess::{move_of, UciMove};
use crate::model::{multi_pv_in_range, InvalidMultiPvError, MultiPv};
use crate::token::{
    lemma_read, opt_view, parse_i32, parse_i64, parse_u32, parse_u64, read, read_spec,
    read_until, str_eq, trim, u32_of, u64_of, i32_of, i64_of,
};

verus! {

/// Why a line of engine output could not be read.
#[derive(Debug, Clone, Copy, PartialEq, Eq, Structural)]
pub enum ProtocolError {
    UnexpectedToken,
    UnexpectedLineBreak,
    UnexpectedEndOfLine,
    InvalidMove,
    InvalidInteger,
    InvalidMultipv(InvalidMultiPvError),
}

/// An evaluation from the point of view of the side to move.
#[derive(Debug, Clone, Copy, PartialEq, Eq, Structural)]
pub enum Eval {
    /// Centipawns.
    Cp(i64),
    /// Moves until mate, negative when being mated.
    Mate(i32),
}

#[derive(Debug, Clone, Copy, PartialEq, Eq, Structural)]
pub struct Score {
    pub eval: Eval,
    pub lowerbound: bool,
    pub upperbound: bool,
}

/// The fields of an `info` line. Each keyword may appear once; a repeated
/// keyword overwrites. `refutation` and `currline` keep one entry per key,
/// in the order the keys first appeared.
#[derive(Debug, Clone)]
pub struct Info {
    pub multipv: Option<MultiPv>,
    pub depth: Option<u32>,
    pub seldepth: Option<u32>,
    /// Milliseconds searched.
    pub time: Option<u64>,
    pub nodes: Option<u64>,
    pub score: Option<Score>,
    pub currmove: Option<UciMove>,
    pub currmovenumber: Option<u32>,
    pub hashfull: Option<u32>,
    pub nps: Option<u64>,
    pub tbhits: Option<u64>,
    pub sbhits: Option<u64>,
    pub cpuload: Option<u32>,
    pub refutation: Vec<(UciMove, Vec<UciMove>)>,
    pub currline: Vec<(u32, Vec<UciMove>)>,
    pub pv: Option<Vec<UciMove>>,
    pub string: Option<String>,
}

/// One line of engine output that the broker understands.
#[derive(Debug, Clone)]
pub enum UciOut {
    Bestmove { m: Option<UciMove>, ponder: Option<UciMove> },
    Info(Info),
}

/// The mathematical value of an `Info`.
pub struct InfoView {
    pub multipv: Option<u32>,
    pub depth: Option<u32>,
    pub seldepth: Option<u32>,
    pub time: Option<u64>,
    pub nodes: Option<u64>,
    pub score: Option<Score>,
    pub currmove: Option<UciMove>,
    pub currmovenumber: Option<u32>,
    pub hashfull: Option<u32>,
    pub nps: Option<u64>,
    pub tbhits: Option<u64>,
    pub sbhits: Option<u64>,
    pub cpuload: Option<u32>,
    pub refutation: Seq<(UciMove, Seq<UciMove>)>,
    pub currline: Seq<(u32, Seq<UciMove>)>,
    pub pv: Option<Seq<UciMove>>,
    pub string: Option<Seq<char>>,
}

pub enum UciOutView {
    Bestmove { m: Option<UciMove>, ponder: Option<UciMove> },
    Info(InfoView),
}

pub open spec fn lines_view<K>(v: Seq<(K, Vec<UciMove>)>) -> Seq<(K, Seq<UciMove>)> {
    v.map_values(|p: (K, Vec<UciMove>)| (p.0, p.1@))
}

pub open spec fn opt_multi_pv(m: Option<MultiPv>) -> Option<u32> {
    match m {
        Some(m) => Some(m.spec_get()),
        None => None,
    }
}

pub open spec fn opt_moves(m: Option<Vec<UciMove>>) -> Option<Seq<UciMove>> {
    match m {
        Some(v) => Some(v@),
        None => None,
    }
}

pub open spec fn opt_string(m: Option<String>) -> Option<Seq<char>> {
    match m {
        Some(v) => Some(v@),
        None => None,
    }
}

impl View for Info {
    type V = InfoView;

    open spec fn view(&self) -> InfoView {
        InfoView {
            multipv: opt_multi_pv(self.multipv),
            depth: self.depth,
            seldepth: self.seldepth,
            time: self.time,
            nodes: self.nodes,
            score: self.score,
            currmove: self.currmove,
            currmovenumber: self.currmovenumber,
            hashfull: self.hashfull,
            nps: self.nps,
            tbhits: self.tbhits,
            sbhits: self.sbhits,
            cpuload: self.cpuload,
            refutation: lines_view(self.refutation@),
            currline: lines_view(self.currline@),
            pv: opt_moves(self.pv),
            string: opt_string(self.string),
        }
    }
}

impl View for UciOut {
    type V = UciOutView;

    open spec fn view(&self) -> UciOutView {
        match self {
            UciOut::Bestmove { m, ponder } => UciOutView::Bestmove { m: *m, ponder: *ponder },
            UciOut::Info(info) => UciOutView::Info(info@),
        }
    }
}

/// Index of the entry with key `k` at or after `i`, or -1.
pub open spec fn assoc_find<K, V>(s: Seq<(K, V)>, k: K, i: int) -> int
    decreases s.len() - i,
{
    if i < 0 || i >= s.len() {
        -1
    } else if s[i].0 == k {
        i
    } else {
        assoc_find(s, k, i + 1)
    }
}

/// Sets the value of key `k`: in place where the key is present, else at the end.
pub open spec fn assoc_insert<K, V>(s: Seq<(K, V)>, k: K, v: V) -> Seq<(K, V)> {
    let i = assoc_find(s, k, 0);
    if i >= 0 {
        s.update(i, (k, v))
    } else {
        s.push((k, v))
    }
}

/// The keys are pairwise distinct.
pub open spec fn keys_unique<K, V>(s: Seq<(K, V)>) -> bool {
    forall|a: int, b: int| 0 <= a < b < s.len() ==> s[a].0 != s[b].0
}

pub open spec fn empty_info() -> InfoView {
    InfoView {
        multipv: None,
        depth: None,
        seldepth: None,
        time: None,
        nodes: None,
        score: None,
        currmove: None,
        currmovenumber: None,
        hashfull: None,
        nps: None,
        tbhits: None,
        sbhits: None,
        cpuload: None,
        refutation: Seq::empty(),
        currline: Seq::empty(),
        pv: None,
        string: None,
    }
}

/// A `u32` argument and what follows it.
pub open spec fn u32_arg(s: Seq<char>) -> Result<(u32, Seq<char>), ProtocolError> {
    match read_spec(s) {
        (None, _) => Err(ProtocolError::UnexpectedEndOfLine),
        (Some(t), r) => match u32_of(t) {
            Some(v) => Ok((v, r)),
            None => Err(ProtocolError::InvalidInteger),
        },
    }
}

pub open spec fn u64_arg(s: Seq<char>) -> Result<(u64, Seq<char>), ProtocolError> {
    match read_spec(s) {
        (None, _) => Err(ProtocolError::UnexpectedEndOfLine),
        (Some(t), r) => match u64_of(t) {
            Some(v) => Ok((v, r)),
            None => Err(ProtocolError::InvalidInteger),
        },
    }
}

pub open spec fn move_arg(s: Seq<char>) -> Result<(UciMove, Seq<char>), ProtocolError> {
    match read_spec(s) {
        (None, _) => Err(ProtocolError::UnexpectedEndOfLine),
        (Some(t), r) => match move_of(t) {
            Some(v) => Ok((v, r)),
            None => Err(ProtocolError::InvalidMove),
        },
    }
}

/// The longest run of tokens that are moves; the rest starts at the first
/// token that is not.
pub open spec fn moves_spec(s: Seq<char>) -> (Seq<UciMove>, Seq<char>)
    decreases s.len(),
{
    match read_spec(s) {
        (Some(t), r) => match move_of(t) {
            Some(m) => {
                proof {
                    lemma_read(s);
                }
                let (ms, rest) = moves_spec(r);
                (seq![m] + ms, rest)
            },
            None => (Seq::empty(), s),
        },
        (None, _) => (Seq::empty(), s),
    }
}

/// Trailing `lowerbound` and `upperbound` flags of a score.
pub open spec fn bounds_spec(s: Seq<char>, lower: bool, upper: bool) -> (bool, bool, Seq<char>)
    decreases s.len(),
{
    match read_spec(s) {
        (Some(t), r) => {
            proof {
                lemma_read(s);
            }
            if t == "lowerbound"@ {
                bounds_spec(r, true, upper)
            } else if t == "upperbound"@ {
                bounds_spec(r, lower, true)
            } else {
                (lower, upper, s)
            }
        },
        (None, _) => (lower, upper, s),
    }
}

pub open spec fn eval_spec(s: Seq<char>) -> Result<(Eval, Seq<char>), ProtocolError> {
    match read_spec(s) {
        (None, _) => Err(ProtocolError::UnexpectedEndOfLine),
        (Some(k), r) => if k == "cp"@ {
            match read_spec(r) {
                (None, _) => Err(ProtocolError::UnexpectedEndOfLine),
                (Some(t), r2) => match i64_of(t) {
                    Some(v) => Ok((Eval::Cp(v), r2)),
                    None => Err(ProtocolError::InvalidInteger),
                },
            }
        } else if k == "mate"@ {
            match read_spec(r) {
                (None, _) => Err(ProtocolError::UnexpectedEndOfLine),
                (Some(t), r2) => match i32_of(t) {
                    Some(v) => Ok((Eval::Mate(v), r2)),
                    None => Err(ProtocolError::InvalidInteger),
                },
            }
        } else {
            Err(ProtocolError::UnexpectedToken)
        },
    }
}

/// `cp N` or `mate N`, then any bound flags.
pub open spec fn score_spec(s: Seq<char>) -> Result<(Score, Seq<char>), ProtocolError> {
    match eval_spec(s) {
        Err(e) => Err(e),
        Ok((eval, r)) => {
            let (lower, upper, rest) = bounds_spec(r, false, false);
            Ok((Score { eval, lowerbound: lower, upperbound: upper }, rest))
        },
    }
}

/// The text after `string`: the rest of the line, trimmed.
pub open spec fn string_value(s: Seq<char>) -> Seq<char> {
    if read_spec(s).0 is None {
        Seq::empty()
    } else {
        trim(s)
    }
}

/// Reads the argument of keyword `k` of an `info` line from `s`.
pub open spec fn info_step(k: Seq<char>, s: Seq<char>, acc: InfoView) -> Result<
    (InfoView, Seq<char>),
    ProtocolError,
> {
    if k == "multipv"@ {
        match u32_arg(s) {
            Err(e) => Err(e),
            Ok((n, r)) => if multi_pv_in_range(n as int) {
                Ok((InfoView { multipv: Some(n), ..acc }, r))
            } else {
                Err(ProtocolError::InvalidMultipv(InvalidMultiPvError))
            },
        }
    } else if k == "depth"@ {
        match u32_arg(s) {
            Err(e) => Err(e),
            Ok((n, r)) => Ok((InfoView { depth: Some(n), ..acc }, r)),
        }
    } else if k == "seldepth"@ {
        match u32_arg(s) {
            Err(e) => Err(e),
            Ok((n, r)) => Ok((InfoView { seldepth: Some(n), ..acc }, r)),
        }
    } else if k == "time"@ {
        match u64_arg(s) {
            Err(e) => Err(e),
            Ok((n, r)) => Ok((InfoView { time: Some(n), ..acc }, r)),
        }
    } else if k == "nodes"@ {
        match u64_arg(s) {
            Err(e) => Err(e),
            Ok((n, r)) => Ok((InfoView { nodes: Some(n), ..acc }, r)),
        }
    } else if k == "score"@ {
        match score_spec(s) {
            Err(e) => Err(e),
            Ok((sc, r)) => Ok((InfoView { score: Some(sc), ..acc }, r)),
        }
    } else if k == "currmove"@ {
        match move_arg(s) {
            Err(e) => Err(e),
            Ok((m, r)) => Ok((InfoView { currmove: Some(m), ..acc }, r)),
        }
    } else if k == "currmovenumber"@ {
        match u32_arg(s) {
            Err(e) => Err(e),
            Ok((n, r)) => Ok((InfoView { currmovenumber: Some(n), ..acc }, r)),
        }
    } else if k == "hashfull"@ {
        match u32_arg(s) {
            Err(e) => Err(e),
            Ok((n, r)) => Ok((InfoView { hashfull: Some(n), ..acc }, r)),
        }
    } else if k == "nps"@ {
        match u64_arg(s) {
            Err(e) => Err(e),
            Ok((n, r)) => Ok((InfoView { nps: Some(n), ..acc }, r)),
        }
    } else if k == "tbhits"@ {
        match u64_arg(s) {
            Err(e) => Err(e),
            Ok((n, r)) => Ok((InfoView { tbhits: Some(n), ..acc }, r)),
        }
    } else if k == "sbhits"@ {
        match u64_arg(s) {
            Err(e) => Err(e),
            Ok((n, r)) => Ok((InfoView { sbhits: Some(n), ..acc }, r)),
        }
    } else if k == "cpuload"@ {
        match u32_arg(s) {
            Err(e) => Err(e),
            Ok((n, r)) => Ok((InfoView { cpuload: Some(n), ..acc }, r)),
        }
    } else if k == "refutation"@ {
        match move_arg(s) {
            Err(e) => Err(e),
            Ok((m, r)) => {
                let (ms, r2) = moves_spec(r);
                Ok((InfoView { refutation: assoc_insert(acc.refutation, m, ms), ..acc }, r2))
            },
        }
    } else if k == "currline"@ {
        match u32_arg(s) {
            Err(e) => Err(e),
            Ok((n, r)) => {
                let (ms, r2) = moves_spec(r);
                Ok((InfoView { currline: assoc_insert(acc.currline, n, ms), ..acc }, r2))
            },
        }
    } else if k == "pv"@ {
        let (ms, r) = moves_spec(s);
        Ok((InfoView { pv: Some(ms), ..acc }, r))
    } else if k == "string"@ {
        Ok((InfoView { string: Some(string_value(s)), ..acc }, Seq::empty()))
    } else {
        Err(ProtocolError::UnexpectedToken)
    }
}

pub proof fn lemma_moves_shrink(s: Seq<char>)
    ensures
        moves_spec(s).1.len() <= s.len(),
    decreases s.len(),
{
    lemma_read(s);
    if let (Some(t), r) = read_spec(s) {
        if move_of(t) is Some {
            lemma_moves_shrink(r);
        }
    }
}

pub proof fn lemma_bounds_shrink(s: Seq<char>, lower: bool, upper: bool)
    ensures
        bounds_spec(s, lower, upper).2.len() <= s.len(),
    decreases s.len(),
{
    lemma_read(s);
    if let (Some(t), r) = read_spec(s) {
        lemma_bounds_shrink(r, true, upper);
        lemma_bounds_shrink(r, lower, true);
    }
}

pub proof fn lemma_step_shrinks(k: Seq<char>, s: Seq<char>, acc: InfoView)
    ensures
        info_step(k, s, acc) matches Ok((_, r)) ==> r.len() <= s.len(),
{
    lemma_read(s);
    lemma_read(read_spec(s).1);
    lemma_moves_shrink(s);
    lemma_moves_shrink(read_spec(s).1);
    lemma_bounds_shrink(read_spec(s).1, false, false);
    lemma_bounds_shrink(read_spec(read_spec(s).1).1, false, false);
}

/// The keywords of an `info` line, in order, until the line ends.
pub open spec fn info_spec(s: Seq<char>, acc: InfoView) -> Result<InfoView, ProtocolError>
    decreases s.len(),
{
    match read_spec(s) {
        (None, _) => Ok(acc),
        (Some(k), r) => match info_step(k, r, acc) {
            Err(e) => Err(e),
            Ok((acc2, r2)) => {
                proof {
                    lemma_read(s);
                    lemma_step_shrinks(k, r, acc);
                }
                info_spec(r2, acc2)
            },
        },
    }
}

/// A move argument of `bestmove`, where `(none)` or the end of the line means none.
pub open spec fn optional_move(t: Option<Seq<char>>) -> Result<Option<UciMove>, ProtocolError> {
    match t {
        None => Ok(None),
        Some(t) => if t == "(none)"@ {
            Ok(None)
        } else {
            match move_of(t) {
                Some(m) => Ok(Some(m)),
                None => Err(ProtocolError::InvalidMove),
            }
        },
    }
}

/// `bestmove <move|(none)> [ponder <move|(none)>]`.
pub open spec fn bestmove_spec(s: Seq<char>) -> Result<UciOutView, ProtocolError> {
    let (t1, r1) = read_spec(s);
    match optional_move(t1) {
        Err(e) => Err(e),
        Ok(m) => match read_spec(r1) {
            (None, _) => Ok(UciOutView::Bestmove { m, ponder: None }),
            (Some(t2), r2) => if t2 == "ponder"@ {
                match optional_move(read_spec(r2).0) {
                    Err(e) => Err(e),
                    Ok(p) => Ok(UciOutView::Bestmove { m, ponder: p }),
                }
            } else {
                Err(ProtocolError::UnexpectedToken)
            },
        },
    }
}

pub open spec fn has_line_break(s: Seq<char>) -> bool {
    exists|k: int| 0 <= k < s.len() && (s[k] == '\r' || s[k] == '\n')
}

/// What a line of engine output means: `None` for lines that start with
/// anything but `bestmove` or `info`.
pub open spec fn parse_line(s: Seq<char>) -> Result<Option<UciOutView>, ProtocolError> {
    if has_line_break(s) {
        Err(ProtocolError::UnexpectedLineBreak)
    } else {
        match read_spec(s) {
            (Some(t), r) => if t == "bestmove"@ {
                match bestmove_spec(r) {
                    Ok(u) => Ok(Some(u)),
                    Err(e) => Err(e),
                }
            } else if t == "info"@ {
                match info_spec(r, empty_info()) {
                    Ok(i) => Ok(Some(UciOutView::Info(i))),
                    Err(e) => Err(e),
                }
            } else {
                Ok(None)
            },
            (None, _) => Ok(None),
        }
    }
}

pub open spec fn opt_out_view(r: Result<Option<UciOut>, ProtocolError>) -> Result<
    Option<UciOutView>,
    ProtocolError,
> {
    match r {
        Ok(Some(u)) => Ok(Some(u@)),
        Ok(None) => Ok(None),
        Err(e) => Err(e),
    }
}

impl UciOut {
    /// Reads one line of engine output.
    pub fn from_line(s: &str) -> (r: Result<Option<UciOut>, ProtocolError>)
        ensures
            opt_out_view(r) == parse_line(s@),
            r matches Ok(Some(u)) ==> u.wf(),
    {
        match Parser::new(s) {
            Err(e) => Err(e),
            Ok(mut p) => p.parse_out(),
        }
    }
}

pub open spec fn moves_wf(s: Seq<UciMove>) -> bool {
    forall|k: int| 0 <= k < s.len() ==> (#[trigger] s[k]).wf()
}

pub open spec fn lines_wf<K>(s: Seq<(K, Seq<UciMove>)>) -> bool {
    forall|k: int| 0 <= k < s.len() ==> moves_wf(#[trigger] s[k].1)
}

/// Keyed lists have distinct keys and every move names real squares and roles.
pub open spec fn info_wf(v: InfoView) -> bool {
    &&& keys_unique(v.refutation)
    &&& keys_unique(v.currline)
    &&& forall|k: int| 0 <= k < v.refutation.len() ==> (#[trigger] v.refutation[k]).0.wf()
    &&& lines_wf(v.refutation)
    &&& lines_wf(v.currline)
    &&& (v.currmove matches Some(m) ==> m.wf())
    &&& (v.pv matches Some(p) ==> moves_wf(p))
}

pub proof fn lemma_insert_wf<K, V>(s: Seq<(K, V)>, k: K, v: V)
    ensures
        keys_unique(s) ==> keys_unique(assoc_insert(s, k, v)),
        forall|x: int| 0 <= x < assoc_insert(s, k, v).len() ==> (#[trigger] assoc_insert(s, k, v)[x]
            == (k, v) || exists|y: int| 0 <= y < s.len() && s[y] == assoc_insert(s, k, v)[x]),
{
    lemma_find_bounds(s, k, 0);
    let i = assoc_find(s, k, 0);
    let t = assoc_insert(s, k, v);
    if keys_unique(s) {
        assert forall|a: int, b: int| 0 <= a < b < t.len() implies t[a].0 != t[b].0 by {
            if i < 0 && b == s.len() {
                lemma_find_none(s, k, 0, a);
            } else {
                assert(s[a].0 != s[b].0);
            }
        }
    }
    assert forall|x: int| 0 <= x < t.len() implies (#[trigger] t[x] == (k, v) || exists|y: int|
        0 <= y < s.len() && s[y] == t[x]) by {
        if x < s.len() && x != i {
            assert(s[x] == t[x]);
        }
    }
}

impl Info {
    pub open spec fn wf(&self) -> bool {
        info_wf(self@)
    }

    fn new() -> (r: Info)
        ensures
            r@ == empty_info(),
            r.wf(),
    {
        let r = Info {
            multipv: None,
            depth: None,
            seldepth: None,
            time: None,
            nodes: None,
            score: None,
            currmove: None,
            currmovenumber: None,
            hashfull: None,
            nps: None,
            tbhits: None,
            sbhits: None,
            cpuload: None,
            refutation: Vec::new(),
            currline: Vec::new(),
            pv: None,
            string: None,
        };
        assert(r@.refutation =~= Seq::<(UciMove, Seq<UciMove>)>::empty());
        assert(r@.currline =~= Seq::<(u32, Seq<UciMove>)>::empty());
        r
    }
}

/// Index of the entry with move key `k`, as `assoc_find` gives it.
fn find_refutation(lines: &Vec<(UciMove, Vec<UciMove>)>, k: UciMove) -> (r: Option<usize>)
    ensures
        match r {
            Some(i) => i as int == assoc_find(lines_view(lines@), k, 0),
            None => assoc_find(lines_view(lines@), k, 0) == -1,
        },
{
    let ghost v = lines_view(lines@);
    let mut i: usize = 0;
    while i < lines.len()
        invariant
            i <= lines@.len(),
            v == lines_view(lines@),
            assoc_find(v, k, 0) == assoc_find(v, k, i as int),
        decreases lines.len() - i,
    {
        if lines[i].0 == k {
            return Some(i);
        }
        i = i + 1;
    }
    None
}

/// Index of the entry with cpu number `k`, as `assoc_find` gives it.
fn find_currline(lines: &Vec<(u32, Vec<UciMove>)>, k: u32) -> (r: Option<usize>)
    ensures
        match r {
            Some(i) => i as int == assoc_find(lines_view(lines@), k, 0),
            None => assoc_find(lines_view(lines@), k, 0) == -1,
        },
{
    let ghost v = lines_view(lines@);
    let mut i: usize = 0;
    while i < lines.len()
        invariant
            i <= lines@.len(),
            v == lines_view(lines@),
            assoc_find(v, k, 0) == assoc_find(v, k, i as int),
        decreases lines.len() - i,
    {
        if lines[i].0 == k {
            return Some(i);
        }
        i = i + 1;
    }
    None
}

/// Sets the moves of key `k` at the index that the lookup gave.
fn insert_line<K>(lines: &mut Vec<(K, Vec<UciMove>)>, found: Option<usize>, k: K, moves: Vec<UciMove>)
    requires
        match found {
            Some(i) => i as int == assoc_find(lines_view(old(lines)@), k, 0),
            None => assoc_find(lines_view(old(lines)@), k, 0) == -1,
        },
    ensures
        lines_view(final(lines)@) == assoc_insert(lines_view(old(lines)@), k, moves@),
{
    let ghost before = lines_view(lines@);
    proof {
        lemma_find_bounds(before, k, 0);
    }
    match found {
        Some(i) => {
            lines.set(i, (k, moves));
            assert(lines_view(lines@) =~= before.update(i as int, (k, moves@)));
        },
        None => {
            lines.push((k, moves));
            assert(lines_view(lines@) =~= before.push((k, moves@)));
        },
    }
}

proof fn lemma_find_bounds<K, V>(s: Seq<(K, V)>, k: K, i: int)
    requires
        0 <= i,
    ensures
        assoc_find(s, k, i) == -1 || (i <= assoc_find(s, k, i) < s.len() && s[assoc_find(
            s,
            k,
            i,
        )].0 == k),
    decreases s.len() - i,
{
    if i < s.len() && s[i].0 != k {
        lemma_find_bounds(s, k, i + 1);
    }
}

proof fn lemma_find_none<K, V>(s: Seq<(K, V)>, k: K, i: int, x: int)
    requires
        0 <= i <= x < s.len(),
        assoc_find(s, k, i) == -1,
    ensures
        s[x].0 != k,
    decreases x - i,
{
    if i < x {
        lemma_find_none(s, k, i + 1, x);
    }
}

/// Reads tokens off the front of one line.
pub struct Parser<'a> {
    s: &'a str,
}

impl<'a> Parser<'a> {
    pub closed spec fn rest(&self) -> Seq<char> {
        self.s@
    }

    /// A parser over `s`, which must hold no line break.
    pub fn new(s: &'a str) -> (r: Result<Parser<'a>, ProtocolError>)
        ensures
            has_line_break(s@) <==> r is Err,
            r matches Err(e) ==> e == ProtocolError::UnexpectedLineBreak,
            r matches Ok(p) ==> p.rest() == s@,
    {
        let n = s.unicode_len();
        let mut k: usize = 0;
        while k < n
            invariant
                k <= n,
                n == s@.len(),
                forall|j: int| 0 <= j < k ==> s@[j] != '\r' && s@[j] != '\n',
            decreases n - k,
        {
            let c = s.get_char(k);
            if c == '\r' || c == '\n' {
                return Err(ProtocolError::UnexpectedLineBreak);
            }
            k = k + 1;
        }
        Ok(Parser { s })
    }

    /// The next token.
    pub fn next(&mut self) -> (r: Option<&'a str>)
        ensures
            (opt_view(r), final(self).rest()) == read_spec(old(self).rest()),
    {
        let (head, tail) = read(self.s);
        self.s = tail;
        head
    }

    /// The next token, left in place.
    pub fn peek(&self) -> (r: Option<&'a str>)
        ensures
            opt_view(r) == read_spec(self.rest()).0,
    {
        let (head, _) = read(self.s);
        head
    }

    /// The rest of the line, trimmed, up to a token that satisfies `pred`.
    pub fn until<P: Fn(&'a str) -> bool>(&mut self, pred: P) -> (r: Option<&'a str>)
        requires
            forall|t: &'a str| pred.requires((t,)),
        ensures
            r is None <==> read_spec(old(self).rest()).0 is None,
            (forall|t: &'a str, b: bool| #[trigger] pred.ensures((t,), b) ==> !b) ==> {
                &&& final(self).rest().len() == 0
                &&& r matches Some(h) ==> h@ == trim(old(self).rest())
            },
    {
        let (head, tail) = read_until(self.s, pred);
        self.s = tail;
        head
    }

    fn next_u32(&mut self) -> (r: Result<u32, ProtocolError>)
        ensures
            match u32_arg(old(self).rest()) {
                Ok((v, rest)) => r == Ok::<u32, ProtocolError>(v) && final(self).rest() == rest,
                Err(e) => r == Err::<u32, ProtocolError>(e),
            },
    {
        match self.next() {
            None => Err(ProtocolError::UnexpectedEndOfLine),
            Some(t) => match parse_u32(t) {
                Some(v) => Ok(v),
                None => Err(ProtocolError::InvalidInteger),
            },
        }
    }

    fn next_u64(&mut self) -> (r: Result<u64, ProtocolError>)
        ensures
            match u64_arg(old(self).rest()) {
                Ok((v, rest)) => r == Ok::<u64, ProtocolError>(v) && final(self).rest() == rest,
                Err(e) => r == Err::<u64, ProtocolError>(e),
            },
    {
        match self.next() {
            None => Err(ProtocolError::UnexpectedEndOfLine),
            Some(t) => match parse_u64(t) {
                Some(v) => Ok(v),
                None => Err(ProtocolError::InvalidInteger),
            },
        }
    }

    fn next_move(&mut self) -> (r: Result<UciMove, ProtocolError>)
        ensures
            match move_arg(old(self).rest()) {
                Ok((v, rest)) => r == Ok::<UciMove, ProtocolError>(v) && final(self).rest()
                    == rest,
                Err(e) => r == Err::<UciMove, ProtocolError>(e),
            },
            r matches Ok(m) ==> m.wf(),
    {
        match self.next() {
            None => Err(ProtocolError::UnexpectedEndOfLine),
            Some(t) => match UciMove::parse(t) {
                Some(v) => Ok(v),
                None => Err(ProtocolError::InvalidMove),
            },
        }
    }

    /// As many moves as follow.
    pub fn parse_moves(&mut self) -> (r: Vec<UciMove>)
        ensures
            (r@, final(self).rest()) == moves_spec(old(self).rest()),
            forall|k: int| 0 <= k < r@.len() ==> (#[trigger] r@[k]).wf(),
    {
        let mut moves: Vec<UciMove> = Vec::new();
        let ghost start = self.rest();
        loop
            invariant
                start == old(self).rest(),
                moves_spec(start) == (moves@ + moves_spec(self.rest()).0, moves_spec(
                    self.rest(),
                ).1),
                forall|k: int| 0 <= k < moves@.len() ==> (#[trigger] moves@[k]).wf(),
            decreases self.rest().len(),
        {
            let ghost before = self.rest();
            match self.peek() {
                Some(m) => match UciMove::parse(m) {
                    Some(uci) => {
                        self.next();
                        proof {
                            lemma_read(before);
                            let (ms, rest) = moves_spec(self.rest());
                            assert(moves_spec(before) == (seq![uci] + ms, rest));
                            assert(moves@.push(uci) + ms =~= moves@ + (seq![uci] + ms));
                        }
                        moves.push(uci);
                    },
                    None => {
                        proof {
                            assert(moves_spec(before) == (Seq::<UciMove>::empty(), before));
                            assert(moves@ + Seq::<UciMove>::empty() =~= moves@);
                        }
                        return moves;
                    },
                },
                None => {
                    proof {
                        assert(moves_spec(before) == (Seq::<UciMove>::empty(), before));
                        assert(moves@ + Seq::<UciMove>::empty() =~= moves@);
                    }
                    return moves;
                },
            }
        }
    }

    fn optional_move(t: Option<&'a str>) -> (r: Result<Option<UciMove>, ProtocolError>)
        ensures
            r == optional_move(opt_view(t)),
            r matches Ok(Some(m)) ==> m.wf(),
    {
        match t {
            None => Ok(None),
            Some(t) => if str_eq(t, "(none)") {
                Ok(None)
            } else {
                match UciMove::parse(t) {
                    Some(m) => Ok(Some(m)),
                    None => Err(ProtocolError::InvalidMove),
                }
            },
        }
    }

    pub fn parse_bestmove(&mut self) -> (r: Result<UciOut, ProtocolError>)
        ensures
            match bestmove_spec(old(self).rest()) {
                Ok(u) => r matches Ok(o) && o@ == u,
                Err(e) => r == Err::<UciOut, ProtocolError>(e),
            },
            r matches Ok(o) ==> o.wf(),
    {
        let t1 = self.next();
        let m = match Self::optional_move(t1) {
            Ok(m) => m,
            Err(e) => return Err(e),
        };
        let ponder = match self.next() {
            Some(t2) => if str_eq(t2, "ponder") {
                let t3 = self.next();
                match Self::optional_move(t3) {
                    Ok(p) => p,
                    Err(e) => return Err(e),
                }
            } else {
                return Err(ProtocolError::UnexpectedToken);
            },
            None => None,
        };
        Ok(UciOut::Bestmove { m, ponder })
    }

    pub fn parse_score(&mut self) -> (r: Result<Score, ProtocolError>)
        ensures
            match score_spec(old(self).rest()) {
                Ok((sc, rest)) => r == Ok::<Score, ProtocolError>(sc) && final(self).rest()
                    == rest,
                Err(e) => r == Err::<Score, ProtocolError>(e),
            },
    {
        let eval = match self.next() {
            Some(k) => if str_eq(k, "cp") {
                match self.next() {
                    None => return Err(ProtocolError::UnexpectedEndOfLine),
                    Some(t) => match parse_i64(t) {
                        Some(v) => Eval::Cp(v),
                        None => return Err(ProtocolError::InvalidInteger),
                    },
                }
            } else if str_eq(k, "mate") {
                match self.next() {
                    None => return Err(ProtocolError::UnexpectedEndOfLine),
                    Some(t) => match parse_i32(t) {
                        Some(v) => Eval::Mate(v),
                        None => return Err(ProtocolError::InvalidInteger),
                    },
                }
            } else {
                return Err(ProtocolError::UnexpectedToken);
            },
            None => return Err(ProtocolError::UnexpectedEndOfLine),
        };
        let mut lowerbound = false;
        let mut upperbound = false;
        let ghost after_eval = self.rest();
        loop
            invariant
                bounds_spec(after_eval, false, false) == bounds_spec(
                    self.rest(),
                    lowerbound,
                    upperbound,
                ),
            ensures
                bounds_spec(after_eval, false, false) == (lowerbound, upperbound, self.rest()),
            decreases self.rest().len(),
        {
            let ghost before = self.rest();
            proof {
                lemma_read(before);
            }
            match self.peek() {
                Some(token) => if str_eq(token, "lowerbound") {
                    self.next();
                    lowerbound = true;
                } else if str_eq(token, "upperbound") {
                    self.next();
                    upperbound = true;
                } else {
                    break;
                },
                None => break,
            }
        }
        Ok(Score { eval, lowerbound, upperbound })
    }

    /// Applies keyword `k` of an `info` line to `acc`.
    fn info_keyword(&mut self, k: &str, acc: &mut Info) -> (r: Result<(), ProtocolError>)
        requires
            old(acc).wf(),
        ensures
            match info_step(k@, old(self).rest(), old(acc)@) {
                Ok((a, rest)) => r is Ok && final(acc)@ == a && final(self).rest() == rest,
                Err(e) => r == Err::<(), ProtocolError>(e),
            },
            final(acc).wf(),
    {
        if str_eq(k, "multipv") {
            let n = match self.next_u32() {
                Ok(n) => n,
                Err(e) => return Err(e),
            };
            match MultiPv::new(n) {
                Ok(m) => acc.multipv = Some(m),
                Err(e) => return Err(ProtocolError::InvalidMultipv(e)),
            }
        } else if str_eq(k, "depth") {
            match self.next_u32() {
                Ok(n) => acc.depth = Some(n),
                Err(e) => return Err(e),
            }
        } else if str_eq(k, "seldepth") {
            match self.next_u32() {
                Ok(n) => acc.seldepth = Some(n),
                Err(e) => return Err(e),
            }
        } else if str_eq(k, "time") {
            match self.next_u64() {
                Ok(n) => acc.time = Some(n),
                Err(e) => return Err(e),
            }
        } else if str_eq(k, "nodes") {
            match self.next_u64() {
                Ok(n) => acc.nodes = Some(n),
                Err(e) => return Err(e),
            }
        } else if str_eq(k, "score") {
            match self.parse_score() {
                Ok(s) => acc.score = Some(s),
                Err(e) => return Err(e),
            }
        } else if str_eq(k, "currmove") {
            match self.next_move() {
                Ok(m) => acc.currmove = Some(m),
                Err(e) => return Err(e),
            }
        } else if str_eq(k, "currmovenumber") {
            match self.next_u32() {
                Ok(n) => acc.currmovenumber = Some(n),
                Err(e) => return Err(e),
            }
        } else if str_eq(k, "hashfull") {
            match self.next_u32() {
                Ok(n) => acc.hashfull = Some(n),
                Err(e) => return Err(e),
            }
        } else if str_eq(k, "nps") {
            match self.next_u64() {
                Ok(n) => acc.nps = Some(n),
                Err(e) => return Err(e),
            }
        } else if str_eq(k, "tbhits") {
            match self.next_u64() {
                Ok(n) => acc.tbhits = Some(n),
                Err(e) => return Err(e),
            }
        } else if str_eq(k, "sbhits") {
            match self.next_u64() {
                Ok(n) => acc.sbhits = Some(n),
                Err(e) => return Err(e),
            }
        } else if str_eq(k, "cpuload") {
            match self.next_u32() {
                Ok(n) => acc.cpuload = Some(n),
                Err(e) => return Err(e),
            }
        } else if str_eq(k, "refutation") {
            let m = match self.next_move() {
                Ok(m) => m,
                Err(e) => return Err(e),
            };
            let moves = self.parse_moves();
            let found = find_refutation(&acc.refutation, m);
            proof {
                lemma_insert_wf(lines_view(acc.refutation@), m, moves@);
            }
            insert_line(&mut acc.refutation, found, m, moves);
        } else if str_eq(k, "currline") {
            let n = match self.next_u32() {
                Ok(n) => n,
                Err(e) => return Err(e),
            };
            let moves = self.parse_moves();
            let found = find_currline(&acc.currline, n);
            proof {
                lemma_insert_wf(lines_view(acc.currline@), n, moves@);
            }
            insert_line(&mut acc.currline, found, n, moves);
        } else if str_eq(k, "pv") {
            acc.pv = Some(self.parse_moves());
        } else if str_eq(k, "string") {
            let text = self.until(|_t: &'a str| -> (b: bool)
                ensures
                    !b,
                { false });
            acc.string = Some(
                match text {
                    Some(t) => t.to_owned(),
                    None => String::new(),
                },
            );
        } else {
            return Err(ProtocolError::UnexpectedToken);
        }
        Ok(())
    }

    pub fn parse_info(&mut self) -> (r: Result<UciOut, ProtocolError>)
        ensures
            match info_spec(old(self).rest(), empty_info()) {
                Ok(i) => r matches Ok(UciOut::Info(o)) && o@ == i && o.wf(),
                Err(e) => r == Err::<UciOut, ProtocolError>(e),
            },
    {
        let mut acc = Info::new();
        let ghost start = self.rest();
        loop
            invariant
                start == old(self).rest(),
                info_spec(start, empty_info()) == info_spec(self.rest(), acc@),
                acc.wf(),
            ensures
                info_spec(start, empty_info()) == Ok::<InfoView, ProtocolError>(acc@),
                acc.wf(),
            decreases self.rest().len(),
        {
            let ghost before = self.rest();
            match self.next() {
                None => break,
                Some(k) => {
                    let ghost mid = self.rest();
                    let ghost acc_before = acc@;
                    proof {
                        lemma_read(before);
                        lemma_step_shrinks(k@, mid, acc_before);
                    }
                    match self.info_keyword(k, &mut acc) {
                        Ok(()) => {},
                        Err(e) => {
                            assert(info_spec(before, acc_before) == Err::<InfoView, ProtocolError>(e));
                            return Err(e);
                        },
                    }
                },
            }
        }
        Ok(UciOut::Info(acc))
    }

    pub fn parse_out(&mut self) -> (r: Result<Option<UciOut>, ProtocolError>)
        requires
            !has_line_break(old(self).rest()),
        ensures
            opt_out_view(r) == parse_line(old(self).rest()),
            r matches Ok(Some(u)) ==> u.wf(),
    {
        match self.next() {
            Some(t) => if str_eq(t, "bestmove") {
                match self.parse_bestmove() {
                    Ok(u) => Ok(Some(u)),
                    Err(e) => Err(e),
                }
            } else if str_eq(t, "info") {
                match self.parse_info() {
                    Ok(u) => Ok(Some(u)),
                    Err(e) => Err(e),
                }
            } else {
                Ok(None)
            },
            None => Ok(None),
        }
    }
}

} // verus!
