//! Writing engine output back as a UCI line.
use vstd::prelude::*;
use vstd::string::StringExecFns;
use crate::chess::{move_of, uci_of, uci_text, uci_to_string, UciMove};
use crate::round_trip::{
    info_ok, info_parsed, lemma_line_round_trip, lemma_parsed_shape, moves_ok, moves_parsed,
    parsed_move, text_ok,
};
use crate::token::{dec_text, i64_text, signed_text, u64_text};
use crate::uci::{
    lines_view, lines_wf, moves_wf, parse_line, Eval, Info, InfoView, ProtocolError, Score,
    UciOut, UciOutView,
};

verus! {

/// Each move preceded by a space.
pub open spec fn moves_text(ms: Seq<UciMove>) -> Seq<char>
    decreases ms.len(),
{
    if ms.len() == 0 {
        Seq::empty()
    } else {
        moves_text(ms.drop_last()) + " "@ + uci_text(ms.last())
    }
}

pub open spec fn eval_text(e: Eval) -> Seq<char> {
    match e {
        Eval::Cp(v) => "cp "@ + signed_text(v as int),
        Eval::Mate(v) => "mate "@ + signed_text(v as int),
    }
}

pub open spec fn score_text(s: Score) -> Seq<char> {
    eval_text(s.eval) + (if s.lowerbound {
        " lowerbound"@
    } else {
        Seq::empty()
    }) + (if s.upperbound {
        " upperbound"@
    } else {
        Seq::empty()
    })
}

/// ` key value` where the value is present.
pub open spec fn field_text(key: Seq<char>, value: Option<Seq<char>>) -> Seq<char> {
    match value {
        Some(v) => key + v,
        None => Seq::empty(),
    }
}

pub open spec fn opt_dec(n: Option<u64>) -> Option<Seq<char>> {
    match n {
        Some(n) => Some(dec_text(n as nat)),
        None => None,
    }
}

pub open spec fn opt_dec32(n: Option<u32>) -> Option<Seq<char>> {
    match n {
        Some(n) => Some(dec_text(n as nat)),
        None => None,
    }
}

pub open spec fn refutations_text(s: Seq<(UciMove, Seq<UciMove>)>) -> Seq<char>
    decreases s.len(),
{
    if s.len() == 0 {
        Seq::empty()
    } else {
        refutations_text(s.drop_last()) + " refutation "@ + uci_text(s.last().0) + moves_text(
            s.last().1,
        )
    }
}

pub open spec fn currlines_text(s: Seq<(u32, Seq<UciMove>)>) -> Seq<char>
    decreases s.len(),
{
    if s.len() == 0 {
        Seq::empty()
    } else {
        currlines_text(s.drop_last()) + " currline "@ + dec_text(s.last().0 as nat) + moves_text(
            s.last().1,
        )
    }
}

/// The fields of an `info` line, in a fixed order.
pub open spec fn info_text(v: InfoView) -> Seq<char> {
    "info"@ + field_text(" multipv "@, opt_dec32(v.multipv)) + field_text(
        " depth "@,
        opt_dec32(v.depth),
    ) + field_text(" seldepth "@, opt_dec32(v.seldepth)) + field_text(" time "@, opt_dec(v.time))
        + field_text(" nodes "@, opt_dec(v.nodes)) + field_text(
        " score "@,
        match v.score {
            Some(s) => Some(score_text(s)),
            None => None,
        },
    ) + field_text(
        " currmove "@,
        match v.currmove {
            Some(m) => Some(uci_text(m)),
            None => None,
        },
    ) + field_text(" currmovenumber "@, opt_dec32(v.currmovenumber)) + field_text(
        " hashfull "@,
        opt_dec32(v.hashfull),
    ) + field_text(" nps "@, opt_dec(v.nps)) + field_text(" tbhits "@, opt_dec(v.tbhits))
        + field_text(" sbhits "@, opt_dec(v.sbhits)) + field_text(
        " cpuload "@,
        opt_dec32(v.cpuload),
    ) + refutations_text(v.refutation) + currlines_text(v.currline) + field_text(
        " pv"@,
        match v.pv {
            Some(p) => Some(moves_text(p)),
            None => None,
        },
    ) + field_text(" string "@, v.string)
}

pub open spec fn bestmove_text(m: Option<UciMove>, ponder: Option<UciMove>) -> Seq<char> {
    "bestmove "@ + (match m {
        Some(m) => uci_text(m),
        None => "(none)"@,
    }) + field_text(
        " ponder "@,
        match ponder {
            Some(p) => Some(uci_text(p)),
            None => None,
        },
    )
}

/// The line that writes `u`.
pub open spec fn line_text(u: UciOutView) -> Seq<char> {
    match u {
        UciOutView::Bestmove { m, ponder } => bestmove_text(m, ponder),
        UciOutView::Info(i) => info_text(i),
    }
}

fn push_str(out: &mut String, s: &str)
    ensures
        final(out)@ == old(out)@ + s@,
{
    out.append(s);
}

fn push_move(out: &mut String, m: &UciMove)
    requires
        m.wf(),
    ensures
        final(out)@ == old(out)@ + uci_text(*m),
        parsed_move(*m) ==> text_ok(*m),
{
    let t = uci_to_string(m);
    proof {
        if parsed_move(*m) {
            let w = choose|w: Seq<char>| move_of(w) == Some(*m);
            assert(uci_of(w) == Some(*m));
        }
    }
    out.append(t.as_str());
}

fn push_u64(out: &mut String, n: u64)
    ensures
        final(out)@ == old(out)@ + dec_text(n as nat),
{
    let t = u64_text(n);
    out.append(t.as_str());
}

fn push_field_u64(out: &mut String, key: &str, n: Option<u64>)
    ensures
        final(out)@ == old(out)@ + field_text(key@, opt_dec(n)),
{
    if let Some(n) = n {
        push_str(out, key);
        push_u64(out, n);
        assert(final(out)@ =~= old(out)@ + (key@ + dec_text(n as nat)));
    } else {
        assert(out@ =~= old(out)@ + Seq::<char>::empty());
    }
}

fn push_field_u32(out: &mut String, key: &str, n: Option<u32>)
    ensures
        final(out)@ == old(out)@ + field_text(key@, opt_dec32(n)),
{
    if let Some(n) = n {
        push_str(out, key);
        push_u64(out, n as u64);
        assert(final(out)@ =~= old(out)@ + (key@ + dec_text(n as nat)));
    } else {
        assert(out@ =~= old(out)@ + Seq::<char>::empty());
    }
}

fn push_moves(out: &mut String, ms: &Vec<UciMove>)
    requires
        moves_wf(ms@),
    ensures
        final(out)@ == old(out)@ + moves_text(ms@),
        moves_parsed(ms@) ==> moves_ok(ms@),
{
    let mut i: usize = 0;
    while i < ms.len()
        invariant
            i <= ms@.len(),
            moves_wf(ms@),
            out@ == old(out)@ + moves_text(ms@.subrange(0, i as int)),
            forall|k: int| 0 <= k < i ==> parsed_move(#[trigger] ms@[k]) ==> text_ok(ms@[k]),
        decreases ms.len() - i,
    {
        let ghost before = out@;
        push_str(out, " ");
        push_move(out, &ms[i]);
        proof {
            let p = ms@.subrange(0, i as int + 1);
            assert(p.drop_last() =~= ms@.subrange(0, i as int));
            assert(out@ =~= old(out)@ + moves_text(p));
        }
        i = i + 1;
    }
    assert(ms@.subrange(0, ms@.len() as int) =~= ms@);
}

fn push_score(out: &mut String, s: &Score)
    ensures
        final(out)@ == old(out)@ + score_text(*s),
{
    match s.eval {
        Eval::Cp(v) => {
            push_str(out, "cp ");
            let t = i64_text(v);
            push_str(out, t.as_str());
        },
        Eval::Mate(v) => {
            push_str(out, "mate ");
            let t = i64_text(v as i64);
            push_str(out, t.as_str());
        },
    }
    let ghost after_eval = out@;
    assert(after_eval =~= old(out)@ + eval_text(s.eval));
    if s.lowerbound {
        push_str(out, " lowerbound");
    }
    let ghost after_lower = out@;
    if s.upperbound {
        push_str(out, " upperbound");
    }
    assert(out@ =~= old(out)@ + score_text(*s));
}

fn push_refutations(out: &mut String, lines: &Vec<(UciMove, Vec<UciMove>)>)
    requires
        lines_wf(lines_view(lines@)),
        forall|k: int| 0 <= k < lines@.len() ==> (#[trigger] lines@[k]).0.wf(),
    ensures
        final(out)@ == old(out)@ + refutations_text(lines_view(lines@)),
        forall|k: int|
            0 <= k < lines@.len() ==> (parsed_move(#[trigger] lines_view(lines@)[k].0) ==> text_ok(
                lines_view(lines@)[k].0,
            )) && (moves_parsed(lines_view(lines@)[k].1) ==> moves_ok(lines_view(lines@)[k].1)),
{
    let mut i: usize = 0;
    while i < lines.len()
        invariant
            i <= lines@.len(),
            lines_wf(lines_view(lines@)),
            forall|k: int| 0 <= k < lines@.len() ==> (#[trigger] lines@[k]).0.wf(),
            out@ == old(out)@ + refutations_text(lines_view(lines@).subrange(0, i as int)),
            forall|k: int|
                0 <= k < i ==> (parsed_move(#[trigger] lines_view(lines@)[k].0) ==> text_ok(
                    lines_view(lines@)[k].0,
                )) && (moves_parsed(lines_view(lines@)[k].1) ==> moves_ok(lines_view(lines@)[k].1)),
        decreases lines.len() - i,
    {
        let ghost before = out@;
        let (key, moves) = &lines[i];
        push_str(out, " refutation ");
        push_move(out, key);
        proof {
            assert(lines_view(lines@)[i as int].1 == moves@);
        }
        push_moves(out, moves);
        proof {
            let p = lines_view(lines@).subrange(0, i as int + 1);
            assert(p.drop_last() =~= lines_view(lines@).subrange(0, i as int));
            assert(out@ =~= old(out)@ + refutations_text(p));
        }
        i = i + 1;
    }
    assert(lines_view(lines@).subrange(0, lines@.len() as int) =~= lines_view(lines@));
}

fn push_currlines(out: &mut String, lines: &Vec<(u32, Vec<UciMove>)>)
    requires
        lines_wf(lines_view(lines@)),
    ensures
        final(out)@ == old(out)@ + currlines_text(lines_view(lines@)),
        forall|k: int|
            0 <= k < lines@.len() ==> (moves_parsed(#[trigger] lines_view(lines@)[k].1) ==> moves_ok(
                lines_view(lines@)[k].1,
            )),
{
    let mut i: usize = 0;
    while i < lines.len()
        invariant
            i <= lines@.len(),
            lines_wf(lines_view(lines@)),
            out@ == old(out)@ + currlines_text(lines_view(lines@).subrange(0, i as int)),
            forall|k: int|
                0 <= k < i ==> (moves_parsed(#[trigger] lines_view(lines@)[k].1) ==> moves_ok(
                    lines_view(lines@)[k].1,
                )),
        decreases lines.len() - i,
    {
        let (key, moves) = &lines[i];
        push_str(out, " currline ");
        push_u64(out, *key as u64);
        proof {
            assert(lines_view(lines@)[i as int].1 == moves@);
        }
        push_moves(out, moves);
        proof {
            let p = lines_view(lines@).subrange(0, i as int + 1);
            assert(p.drop_last() =~= lines_view(lines@).subrange(0, i as int));
            assert(out@ =~= old(out)@ + currlines_text(p));
        }
        i = i + 1;
    }
    assert(lines_view(lines@).subrange(0, lines@.len() as int) =~= lines_view(lines@));
}

fn info_line(info: &Info) -> (r: String)
    requires
        info.wf(),
    ensures
        r@ == info_text(info@),
        info_parsed(info@) ==> info_ok(info@),
{
    let v = Ghost(info@);
    let mut out = String::new();
    push_str(&mut out, "info");
    let multipv = match info.multipv {
        Some(m) => Some(m.get()),
        None => None,
    };
    push_field_u32(&mut out, " multipv ", multipv);
    push_field_u32(&mut out, " depth ", info.depth);
    push_field_u32(&mut out, " seldepth ", info.seldepth);
    push_field_u64(&mut out, " time ", info.time);
    push_field_u64(&mut out, " nodes ", info.nodes);
    let ghost upto_nodes = out@;
    if let Some(s) = &info.score {
        push_str(&mut out, " score ");
        push_score(&mut out, s);
    }
    assert(out@ =~= upto_nodes + field_text(
        " score "@,
        match v@.score {
            Some(s) => Some(score_text(s)),
            None => None,
        },
    ));
    let ghost upto_score = out@;
    if let Some(m) = &info.currmove {
        push_str(&mut out, " currmove ");
        push_move(&mut out, m);
    }
    assert(out@ =~= upto_score + field_text(
        " currmove "@,
        match v@.currmove {
            Some(m) => Some(uci_text(m)),
            None => None,
        },
    ));
    push_field_u32(&mut out, " currmovenumber ", info.currmovenumber);
    push_field_u32(&mut out, " hashfull ", info.hashfull);
    push_field_u64(&mut out, " nps ", info.nps);
    push_field_u64(&mut out, " tbhits ", info.tbhits);
    push_field_u64(&mut out, " sbhits ", info.sbhits);
    push_field_u32(&mut out, " cpuload ", info.cpuload);
    proof {
        assert forall|k: int| 0 <= k < info.refutation@.len() implies (#[trigger] info.refutation@[
            k]).0.wf() by {
            assert(v@.refutation[k].0 == info.refutation@[k].0);
        }
    }
    push_refutations(&mut out, &info.refutation);
    push_currlines(&mut out, &info.currline);
    let ghost upto_lines = out@;
    if let Some(p) = &info.pv {
        push_str(&mut out, " pv");
        push_moves(&mut out, p);
    }
    assert(out@ =~= upto_lines + field_text(
        " pv"@,
        match v@.pv {
            Some(p) => Some(moves_text(p)),
            None => None,
        },
    ));
    let ghost upto_pv = out@;
    if let Some(s) = &info.string {
        push_str(&mut out, " string ");
        push_str(&mut out, s.as_str());
    }
    assert(out@ =~= upto_pv + field_text(" string "@, v@.string));
    assert(out@ =~= info_text(v@));
    proof {
        if info_parsed(v@) {
            assert forall|k: int| 0 <= k < v@.refutation.len() implies text_ok(#[trigger] v@.refutation[k].0) && moves_ok(v@.refutation[k].1) by {
                assert(v@.refutation[k] == lines_view(info.refutation@)[k]);
            }
            assert forall|k: int| 0 <= k < v@.currline.len() implies moves_ok(#[trigger] v@.currline[k].1) by {
                assert(v@.currline[k] == lines_view(info.currline@)[k]);
            }
        }
    }
    out
}

impl UciOut {
    /// Every move names real squares and roles; keyed lists have distinct keys.
    pub open spec fn wf(&self) -> bool {
        match self {
            UciOut::Bestmove { m, ponder } => (m matches Some(m) ==> m.wf()) && (ponder matches Some(
                p,
            ) ==> p.wf()),
            UciOut::Info(i) => i.wf(),
        }
    }

    /// The UCI line for this output, as an engine would write it. A value
    /// that the parser returned reads back from it unchanged.
    pub fn to_line(&self) -> (r: String)
        requires
            self.wf(),
        ensures
            r@ == line_text(self@),
            (exists|s: Seq<char>| parse_line(s) == Ok::<Option<UciOutView>, ProtocolError>(Some(self@)))
                ==> parse_line(r@) == Ok::<Option<UciOutView>, ProtocolError>(Some(self@)),
    {
        match self {
            UciOut::Bestmove { m, ponder } => {
                let mut out = String::new();
                push_str(&mut out, "bestmove ");
                match m {
                    Some(m) => push_move(&mut out, m),
                    None => push_str(&mut out, "(none)"),
                }
                let ghost upto_move = out@;
                if let Some(p) = ponder {
                    push_str(&mut out, " ponder ");
                    push_move(&mut out, p);
                }
                assert(out@ =~= upto_move + field_text(
                    " ponder "@,
                    match *ponder {
                        Some(p) => Some(uci_text(p)),
                        None => None,
                    },
                ));
                assert(out@ =~= bestmove_text(*m, *ponder));
                proof {
                    if exists|s: Seq<char>| parse_line(s) == Ok::<Option<UciOutView>, ProtocolError>(Some(self@)) {
                        let s = choose|s: Seq<char>| parse_line(s) == Ok::<Option<UciOutView>, ProtocolError>(Some(self@));
                        lemma_parsed_shape(s);
                        lemma_line_round_trip(self@);
                    }
                }
                out
            },
            UciOut::Info(info) => {
                let out = info_line(info);
                proof {
                    if exists|s: Seq<char>| parse_line(s) == Ok::<Option<UciOutView>, ProtocolError>(Some(self@)) {
                        let s = choose|s: Seq<char>| parse_line(s) == Ok::<Option<UciOutView>, ProtocolError>(Some(self@));
                        lemma_parsed_shape(s);
                        lemma_line_round_trip(self@);
                    }
                }
                out
            },
        }
    }
}

} // verus!
