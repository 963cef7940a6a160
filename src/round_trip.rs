//! Writing a parsed line and reading it again gives the same value.
use vstd::prelude::*;
use crate::chess::{move_char, move_of, uci_text, UciMove};
use crate::render::{
    bestmove_text, line_text,
    currlines_text, eval_text, field_text, info_text, moves_text, opt_dec, opt_dec32,
    refutations_text, score_text,
};
use crate::token::{
    lemma_read, lemma_skip_seps,
    dec_text, is_sep, lemma_dec_text, lemma_signed_round_trip, lemma_unsigned_round_trip,
    read_spec, signed_text, skip_seps, token_end, trim_end,
};
use crate::uci::{
    Eval, Score, eval_spec, score_spec, u32_arg, u64_arg, move_arg, ProtocolError, empty_info,
    assoc_find, assoc_insert, bounds_spec, info_spec, info_step, keys_unique, moves_spec,
    string_value, InfoView, UciOutView, parse_line, lemma_insert_wf, has_line_break, optional_move,
};
use crate::model::multi_pv_in_range;

verus! {

/// What the notation of a move must be for a line to read back: four or
/// five letters, digits or `@` that name the same move.
pub open spec fn text_ok(m: UciMove) -> bool {
    &&& move_of(uci_text(m)) == Some(m)
    &&& forall|k: int| 0 <= k < uci_text(m).len() ==> move_char(#[trigger] uci_text(m)[k])
}

pub open spec fn moves_ok(ms: Seq<UciMove>) -> bool {
    forall|k: int| 0 <= k < ms.len() ==> text_ok(#[trigger] ms[k])
}

/// A token: not empty, no separator in it.
pub open spec fn plain_token(t: Seq<char>) -> bool {
    t.len() > 0 && forall|k: int| 0 <= k < t.len() ==> !is_sep(#[trigger] t[k])
}

/// Text that starts with a separator, or is empty.
pub open spec fn sep_or_end(r: Seq<char>) -> bool {
    r.len() == 0 || is_sep(r[0])
}

/// The next token of `r`, if any, names no move.
pub open spec fn no_move_next(r: Seq<char>) -> bool {
    read_spec(r).0 matches Some(t) ==> move_of(t) is None
}

proof fn lemma_token_end_at(s: Seq<char>, i: int, j: int)
    requires
        0 <= i <= j <= s.len(),
        forall|k: int| i <= k < j ==> !is_sep(#[trigger] s[k]),
        j == s.len() || is_sep(s[j]),
    ensures
        token_end(s, i) == j,
    decreases j - i,
{
    if i < j {
        lemma_token_end_at(s, i + 1, j);
    }
}

/// Reading a token off the front, with or without one space before it.
pub proof fn lemma_read_token(t: Seq<char>, r: Seq<char>)
    requires
        plain_token(t),
        sep_or_end(r),
    ensures
        read_spec(t + r) == (Some(t), r),
        read_spec(" "@ + t + r) == (Some(t), r),
{
    reveal_strlit(" ");
    let s = t + r;
    assert(s[0] == t[0]);
    assert(skip_seps(s, 0) == 0);
    assert forall|k: int| 0 <= k < t.len() implies !is_sep(#[trigger] s[k]) by {
        assert(s[k] == t[k]);
    }
    if r.len() > 0 {
        assert(s[t.len() as int] == r[0]);
    }
    lemma_token_end_at(s, 0, t.len() as int);
    assert(s.subrange(0, t.len() as int) =~= t);
    assert(s.subrange(t.len() as int, s.len() as int) =~= r);
    let s2 = " "@ + t + r;
    assert(s2[0] == ' ');
    assert(s2[1] == t[0]);
    assert(skip_seps(s2, 1) == 1);
    assert(skip_seps(s2, 0) == 1);
    assert forall|k: int| 1 <= k < 1 + t.len() as int implies !is_sep(#[trigger] s2[k]) by {
        assert(s2[k] == t[k - 1]);
    }
    if r.len() > 0 {
        assert(s2[1 + t.len() as int] == r[0]);
    }
    lemma_token_end_at(s2, 1, 1 + t.len() as int);
    assert(s2.subrange(1, 1 + t.len() as int) =~= t);
    assert(s2.subrange(1 + t.len() as int, s2.len() as int) =~= r);
}

pub proof fn lemma_dec_plain(n: nat)
    ensures
        plain_token(dec_text(n)),
{
    lemma_dec_text(n);
    assert forall|k: int| 0 <= k < dec_text(n).len() implies !is_sep(#[trigger] dec_text(n)[k]) by {
        assert(crate::token::is_digit(dec_text(n)[k]));
    }
}

pub proof fn lemma_signed_plain(i: int)
    ensures
        plain_token(signed_text(i)),
{
    if i < 0 {
        lemma_dec_plain((-i) as nat);
        let t = signed_text(i);
        assert forall|k: int| 0 <= k < t.len() implies !is_sep(#[trigger] t[k]) by {
            if k > 0 {
                assert(t[k] == dec_text((-i) as nat)[k - 1]);
            }
        }
    } else {
        lemma_dec_plain(i as nat);
    }
}

pub proof fn lemma_move_plain(m: UciMove)
    requires
        text_ok(m),
    ensures
        plain_token(uci_text(m)),
        uci_text(m).len() == 4 || uci_text(m).len() == 5,
{
    assert forall|k: int| 0 <= k < uci_text(m).len() implies !is_sep(#[trigger] uci_text(m)[k]) by {
        assert(move_char(uci_text(m)[k]));
    }
}

/// A list of moves written out: the first move, then the others.
pub proof fn lemma_moves_text_front(m: UciMove, rest: Seq<UciMove>)
    ensures
        moves_text(seq![m] + rest) == " "@ + uci_text(m) + moves_text(rest),
    decreases rest.len(),
{
    let s = seq![m] + rest;
    if rest.len() == 0 {
        assert(s =~= seq![m]);
        assert(s.drop_last() =~= Seq::<UciMove>::empty());
        assert(moves_text(s.drop_last()) == Seq::<char>::empty());
        assert(s.last() == m);
        assert(moves_text(rest) == Seq::<char>::empty());
        assert(moves_text(s) =~= " "@ + uci_text(m) + moves_text(rest));
    } else {
        assert(s.drop_last() =~= seq![m] + rest.drop_last());
        lemma_moves_text_front(m, rest.drop_last());
        assert(s.last() == rest.last());
        assert(moves_text(s) =~= " "@ + uci_text(m) + moves_text(rest));
    }
}

pub proof fn lemma_moves_text_start(ms: Seq<UciMove>)
    ensures
        sep_or_end(moves_text(ms)),
        ms.len() == 0 ==> moves_text(ms) == Seq::<char>::empty(),
{
    reveal_strlit(" ");
    if ms.len() > 0 {
        assert(ms =~= seq![ms[0]] + ms.drop_first());
        lemma_moves_text_front(ms[0], ms.drop_first());
        assert(moves_text(ms)[0] == ' ');
    }
}

/// Written moves read back as the same moves, up to the first token that is
/// no move.
pub proof fn lemma_moves_parse(ms: Seq<UciMove>, r: Seq<char>)
    requires
        moves_ok(ms),
        sep_or_end(r),
        no_move_next(r),
    ensures
        crate::uci::moves_spec(moves_text(ms) + r) == (ms, r),
    decreases ms.len(),
{
    if ms.len() == 0 {
        assert(moves_text(ms) + r =~= r);
    } else {
        let m = ms[0];
        let rest = ms.drop_first();
        assert(ms =~= seq![m] + rest);
        lemma_moves_text_front(m, rest);
        let r2 = moves_text(rest) + r;
        lemma_moves_text_start(rest);
        assert(sep_or_end(r2)) by {
            if moves_text(rest).len() > 0 {
                assert(r2[0] == moves_text(rest)[0]);
            } else {
                assert(r2 =~= r);
            }
        }
        assert(text_ok(m));
        lemma_move_plain(m);
        assert(moves_text(ms) + r =~= " "@ + uci_text(m) + r2);
        lemma_read_token(uci_text(m), r2);
        assert(moves_ok(rest)) by {
            assert forall|k: int| 0 <= k < rest.len() implies text_ok(#[trigger] rest[k]) by {
                assert(rest[k] == ms[k + 1]);
            }
        }
        lemma_moves_parse(rest, r);
        assert(seq![m] + rest =~= ms);
    }
}

/// A field written as ` key value`: reading gives the key, then the value.
proof fn lemma_key_value(key: Seq<char>, kw: Seq<char>, val: Seq<char>, rest: Seq<char>)
    requires
        key == " "@ + kw + " "@,
        plain_token(kw),
        plain_token(val),
        sep_or_end(rest),
    ensures
        read_spec(key + val + rest) == (Some(kw), " "@ + val + rest),
        read_spec(" "@ + val + rest) == (Some(val), rest),
        sep_or_end(" "@ + val + rest),
{
    reveal_strlit(" ");
    assert(key + val + rest =~= " "@ + kw + (" "@ + val + rest));
    assert((" "@ + val + rest)[0] == ' ');
    lemma_read_token(kw, " "@ + val + rest);
    lemma_read_token(val, rest);
    assert(" "@ + val + rest =~= " "@ + val + rest);
}

/// A refutation entry as written.
pub open spec fn refutation_piece(x: (UciMove, Seq<UciMove>)) -> Seq<char> {
    " refutation "@ + uci_text(x.0) + moves_text(x.1)
}

pub open spec fn currline_piece(x: (u32, Seq<UciMove>)) -> Seq<char> {
    " currline "@ + dec_text(x.0 as nat) + moves_text(x.1)
}

proof fn lemma_refutations_front(x: (UciMove, Seq<UciMove>), rest: Seq<(UciMove, Seq<UciMove>)>)
    ensures
        refutations_text(seq![x] + rest) == refutation_piece(x) + refutations_text(rest),
    decreases rest.len(),
{
    let s = seq![x] + rest;
    if rest.len() == 0 {
        assert(s.drop_last() =~= Seq::<(UciMove, Seq<UciMove>)>::empty());
        assert(refutations_text(s.drop_last()) == Seq::<char>::empty());
        assert(s.last() == x);
        assert(refutations_text(rest) == Seq::<char>::empty());
        assert(refutations_text(s) =~= refutation_piece(x) + refutations_text(rest));
    } else {
        assert(s.drop_last() =~= seq![x] + rest.drop_last());
        lemma_refutations_front(x, rest.drop_last());
        assert(s.last() == rest.last());
        assert(refutations_text(s) =~= refutation_piece(x) + refutations_text(rest));
    }
}

proof fn lemma_currlines_front(x: (u32, Seq<UciMove>), rest: Seq<(u32, Seq<UciMove>)>)
    ensures
        currlines_text(seq![x] + rest) == currline_piece(x) + currlines_text(rest),
    decreases rest.len(),
{
    let s = seq![x] + rest;
    if rest.len() == 0 {
        assert(s.drop_last() =~= Seq::<(u32, Seq<UciMove>)>::empty());
        assert(currlines_text(s.drop_last()) == Seq::<char>::empty());
        assert(s.last() == x);
        assert(currlines_text(rest) == Seq::<char>::empty());
        assert(currlines_text(s) =~= currline_piece(x) + currlines_text(rest));
    } else {
        assert(s.drop_last() =~= seq![x] + rest.drop_last());
        lemma_currlines_front(x, rest.drop_last());
        assert(s.last() == rest.last());
        assert(currlines_text(s) =~= currline_piece(x) + currlines_text(rest));
    }
}

/// The lengths and telling characters of the protocol's keywords, which
/// tell them apart.
pub proof fn lemma_keywords()
    ensures
        "multipv"@.len() == 7,
        "multipv"@[0] == 'm',
        "depth"@.len() == 5,
        "depth"@[0] == 'd',
        "seldepth"@.len() == 8,
        "seldepth"@[0] == 's',
        "time"@.len() == 4,
        "time"@[0] == 't',
        "nodes"@.len() == 5,
        "nodes"@[0] == 'n',
        "score"@.len() == 5,
        "score"@[0] == 's',
        "currmove"@.len() == 8,
        "currmove"@[0] == 'c',
        "currmove"@[4] == 'm',
        "currmovenumber"@.len() == 14,
        "currmovenumber"@[0] == 'c',
        "currmovenumber"@[4] == 'm',
        "hashfull"@.len() == 8,
        "hashfull"@[0] == 'h',
        "nps"@.len() == 3,
        "nps"@[0] == 'n',
        "tbhits"@.len() == 6,
        "tbhits"@[0] == 't',
        "tbhits"@[1] == 'b',
        "sbhits"@.len() == 6,
        "sbhits"@[0] == 's',
        "sbhits"@[1] == 'b',
        "cpuload"@.len() == 7,
        "cpuload"@[0] == 'c',
        "refutation"@.len() == 10,
        "refutation"@[0] == 'r',
        "currline"@.len() == 8,
        "currline"@[0] == 'c',
        "currline"@[4] == 'l',
        "pv"@.len() == 2,
        "pv"@[0] == 'p',
        "string"@.len() == 6,
        "string"@[0] == 's',
        "string"@[1] == 't',
        "lowerbound"@.len() == 10,
        "lowerbound"@[0] == 'l',
        "upperbound"@.len() == 10,
        "upperbound"@[0] == 'u',
        "cp"@.len() == 2,
        "cp"@[0] == 'c',
        "mate"@.len() == 4,
        "mate"@[0] == 'm',
        "ponder"@.len() == 6,
        "ponder"@[0] == 'p',
        "(none)"@.len() == 6,
        "(none)"@[0] == '(',
        "bestmove"@.len() == 8,
        "bestmove"@[0] == 'b',
        "info"@.len() == 4,
        "info"@[0] == 'i',
{
    reveal_strlit("multipv");
    reveal_strlit("depth");
    reveal_strlit("seldepth");
    reveal_strlit("time");
    reveal_strlit("nodes");
    reveal_strlit("score");
    reveal_strlit("currmove");
    reveal_strlit("currmovenumber");
    reveal_strlit("hashfull");
    reveal_strlit("nps");
    reveal_strlit("tbhits");
    reveal_strlit("sbhits");
    reveal_strlit("cpuload");
    reveal_strlit("refutation");
    reveal_strlit("currline");
    reveal_strlit("pv");
    reveal_strlit("string");
    reveal_strlit("lowerbound");
    reveal_strlit("upperbound");
    reveal_strlit("cp");
    reveal_strlit("mate");
    reveal_strlit("ponder");
    reveal_strlit("(none)");
    reveal_strlit("bestmove");
    reveal_strlit("info");
}

proof fn lemma_find_absent<K, V>(s: Seq<(K, V)>, k: K, i: int)
    requires
        0 <= i,
        forall|j: int| i <= j < s.len() ==> s[j].0 != k,
    ensures
        assoc_find(s, k, i) == -1,
    decreases s.len() - i,
{
    if i < s.len() {
        lemma_find_absent(s, k, i + 1);
    }
}

/// Appending an entry whose key is new.
proof fn lemma_insert_new<K, V>(a: Seq<(K, V)>, r: Seq<(K, V)>, x: (K, V))
    requires
        keys_unique(a + seq![x] + r),
    ensures
        assoc_insert(a, x.0, x.1) == a.push(x),
{
    let s = a + seq![x] + r;
    assert forall|j: int| 0 <= j < a.len() implies a[j].0 != x.0 by {
        assert(s[j] == a[j]);
        assert(s[a.len() as int] == x);
    }
    lemma_find_absent(a, x.0, 0);
}

proof fn lemma_concat_start(a: Seq<char>, b: Seq<char>)
    requires
        sep_or_end(a),
        sep_or_end(b),
    ensures
        sep_or_end(a + b),
{
    if a.len() > 0 {
        assert((a + b)[0] == a[0]);
    } else {
        assert(a + b =~= b);
    }
}

/// Written refutations start with a space and with no move.
proof fn lemma_refutations_start(r: Seq<(UciMove, Seq<UciMove>)>, rest: Seq<char>)
    requires
        forall|k: int| 0 <= k < r.len() ==> text_ok(#[trigger] r[k].0),
        sep_or_end(rest),
        no_move_next(rest),
    ensures
        sep_or_end(refutations_text(r) + rest),
        no_move_next(refutations_text(r) + rest),
        r.len() > 0 ==> read_spec(refutations_text(r) + rest).0 == Some("refutation"@),
        r.len() == 0 ==> refutations_text(r) + rest == rest,
    decreases r.len(),
{
    reveal_strlit(" refutation ");
    reveal_strlit("refutation");
    reveal_strlit(" ");
    if r.len() == 0 {
        assert(refutations_text(r) + rest =~= rest);
    } else {
        let x = r[0];
        let r2 = r.drop_first();
        assert(r =~= seq![x] + r2);
        lemma_refutations_front(x, r2);
        assert forall|k: int| 0 <= k < r2.len() implies text_ok(#[trigger] r2[k].0) by {
            assert(r2[k] == r[k + 1]);
        }
        lemma_refutations_start(r2, rest);
        let tail = moves_text(x.1) + (refutations_text(r2) + rest);
        lemma_moves_text_start(x.1);
        lemma_concat_start(moves_text(x.1), refutations_text(r2) + rest);
        lemma_move_plain(x.0);
        assert(" refutation "@ =~= " "@ + "refutation"@ + " "@);
        assert(plain_token("refutation"@));
        lemma_key_value(" refutation "@, "refutation"@, uci_text(x.0), tail);
        assert(refutations_text(r) + rest =~= " refutation "@ + uci_text(x.0) + tail);
        assert(refutations_text(r) + rest =~= " "@ + "refutation"@ + (" "@ + uci_text(x.0) + tail));
        assert((refutations_text(r) + rest)[0] == ' ');
    }
}

proof fn lemma_currlines_start(r: Seq<(u32, Seq<UciMove>)>, rest: Seq<char>)
    requires
        sep_or_end(rest),
        no_move_next(rest),
    ensures
        sep_or_end(currlines_text(r) + rest),
        no_move_next(currlines_text(r) + rest),
        r.len() > 0 ==> read_spec(currlines_text(r) + rest).0 == Some("currline"@),
        r.len() == 0 ==> currlines_text(r) + rest == rest,
    decreases r.len(),
{
    reveal_strlit(" currline ");
    reveal_strlit("currline");
    reveal_strlit(" ");
    if r.len() == 0 {
        assert(currlines_text(r) + rest =~= rest);
    } else {
        let x = r[0];
        let r2 = r.drop_first();
        assert(r =~= seq![x] + r2);
        lemma_currlines_front(x, r2);
        lemma_currlines_start(r2, rest);
        let tail = moves_text(x.1) + (currlines_text(r2) + rest);
        lemma_moves_text_start(x.1);
        lemma_concat_start(moves_text(x.1), currlines_text(r2) + rest);
        lemma_dec_plain(x.0 as nat);
        assert(" currline "@ =~= " "@ + "currline"@ + " "@);
        assert(plain_token("currline"@));
        lemma_key_value(" currline "@, "currline"@, dec_text(x.0 as nat), tail);
        assert(currlines_text(r) + rest =~= " currline "@ + dec_text(x.0 as nat) + tail);
        assert((currlines_text(r) + rest)[0] == ' ');
    }
}

proof fn lemma_refutation_step(m: UciMove, ms: Seq<UciMove>, tail: Seq<char>, acc: InfoView)
    requires
        text_ok(m),
        moves_spec(moves_text(ms) + tail) == (ms, tail),
        sep_or_end(moves_text(ms) + tail),
    ensures
        info_step("refutation"@, " "@ + uci_text(m) + (moves_text(ms) + tail), acc) == Ok::<
            (InfoView, Seq<char>),
            crate::uci::ProtocolError,
        >((InfoView { refutation: assoc_insert(acc.refutation, m, ms), ..acc }, tail)),
{
    lemma_keywords();
    lemma_move_plain(m);
    let x = " "@ + uci_text(m) + (moves_text(ms) + tail);
    lemma_read_token(uci_text(m), moves_text(ms) + tail);
    assert(read_spec(x) == (Some(uci_text(m)), moves_text(ms) + tail));
}

/// Written refutations read back as the same entries, appended in order.
#[verifier::spinoff_prover]
#[verifier::rlimit(40)]
proof fn lemma_refutations_parse(
    r: Seq<(UciMove, Seq<UciMove>)>,
    a: Seq<(UciMove, Seq<UciMove>)>,
    acc: InfoView,
    rest: Seq<char>,
)
    requires
        keys_unique(a + r),
        forall|k: int| 0 <= k < r.len() ==> text_ok(#[trigger] r[k].0) && moves_ok(r[k].1),
        sep_or_end(rest),
        no_move_next(rest),
    ensures
        info_spec(refutations_text(r) + rest, InfoView { refutation: a, ..acc }) == info_spec(
            rest,
            InfoView { refutation: a + r, ..acc },
        ),
    decreases r.len(),
{
    reveal_strlit(" refutation ");
    reveal_strlit("refutation");
    reveal_strlit(" ");
    if r.len() == 0 {
        assert(refutations_text(r) + rest =~= rest);
        assert(a + r =~= a);
    } else {
        let x = r[0];
        let r2 = r.drop_first();
        assert(r =~= seq![x] + r2);
        lemma_refutations_front(x, r2);
        assert forall|k: int| 0 <= k < r2.len() implies text_ok(#[trigger] r2[k].0) && moves_ok(
            r2[k].1,
        ) by {
            assert(r2[k] == r[k + 1]);
        }
        lemma_refutations_start(r2, rest);
        let tail = refutations_text(r2) + rest;
        let mt = moves_text(x.1) + tail;
        lemma_moves_text_start(x.1);
        lemma_concat_start(moves_text(x.1), tail);
        assert(text_ok(x.0) && moves_ok(x.1));
        lemma_move_plain(x.0);
        assert(" refutation "@ =~= " "@ + "refutation"@ + " "@);
        assert(plain_token("refutation"@));
        lemma_key_value(" refutation "@, "refutation"@, uci_text(x.0), mt);
        let text = refutations_text(r) + rest;
        assert(text =~= " refutation "@ + uci_text(x.0) + mt);
        lemma_moves_parse(x.1, tail);
        assert(a + seq![x] + r2 =~= a + r);
        lemma_insert_new(a, r2, x);
        let acc_a = InfoView { refutation: a, ..acc };
        let acc_b = InfoView { refutation: a.push(x), ..acc };
        lemma_refutation_step(x.0, x.1, tail, acc_a);
        assert(info_spec(text, acc_a) == info_spec(tail, acc_b));
        assert(a.push(x) + r2 =~= a + r);
        lemma_refutations_parse(r2, a.push(x), acc, rest);
    }
}

proof fn lemma_currline_step(n: u32, ms: Seq<UciMove>, tail: Seq<char>, acc: InfoView)
    requires
        moves_spec(moves_text(ms) + tail) == (ms, tail),
        sep_or_end(moves_text(ms) + tail),
    ensures
        info_step("currline"@, " "@ + dec_text(n as nat) + (moves_text(ms) + tail), acc) == Ok::<
            (InfoView, Seq<char>),
            crate::uci::ProtocolError,
        >((InfoView { currline: assoc_insert(acc.currline, n, ms), ..acc }, tail)),
{
    reveal_strlit("currline");
    reveal_strlit("refutation");
    reveal_strlit("multipv");
    reveal_strlit("depth");
    reveal_strlit("seldepth");
    reveal_strlit("time");
    reveal_strlit("nodes");
    reveal_strlit("score");
    reveal_strlit("currmove");
    reveal_strlit("currmovenumber");
    reveal_strlit("hashfull");
    reveal_strlit("nps");
    reveal_strlit("tbhits");
    reveal_strlit("sbhits");
    reveal_strlit("cpuload");
    lemma_keywords();
    lemma_dec_plain(n as nat);
    lemma_unsigned_round_trip(n as nat);
    let x = " "@ + dec_text(n as nat) + (moves_text(ms) + tail);
    lemma_read_token(dec_text(n as nat), moves_text(ms) + tail);
    assert(read_spec(x) == (Some(dec_text(n as nat)), moves_text(ms) + tail));
    assert(crate::uci::u32_arg(x) == Ok::<(u32, Seq<char>), crate::uci::ProtocolError>((n, moves_text(ms) + tail)));
}

/// Written current lines read back as the same entries, appended in order.
#[verifier::spinoff_prover]
#[verifier::rlimit(40)]
proof fn lemma_currlines_parse(
    r: Seq<(u32, Seq<UciMove>)>,
    a: Seq<(u32, Seq<UciMove>)>,
    acc: InfoView,
    rest: Seq<char>,
)
    requires
        keys_unique(a + r),
        forall|k: int| 0 <= k < r.len() ==> moves_ok(#[trigger] r[k].1),
        sep_or_end(rest),
        no_move_next(rest),
    ensures
        info_spec(currlines_text(r) + rest, InfoView { currline: a, ..acc }) == info_spec(
            rest,
            InfoView { currline: a + r, ..acc },
        ),
    decreases r.len(),
{
    reveal_strlit(" currline ");
    reveal_strlit("currline");
    reveal_strlit(" ");
    if r.len() == 0 {
        assert(currlines_text(r) + rest =~= rest);
        assert(a + r =~= a);
    } else {
        let x = r[0];
        let r2 = r.drop_first();
        assert(r =~= seq![x] + r2);
        lemma_currlines_front(x, r2);
        assert forall|k: int| 0 <= k < r2.len() implies moves_ok(#[trigger] r2[k].1) by {
            assert(r2[k] == r[k + 1]);
        }
        lemma_currlines_start(r2, rest);
        let tail = currlines_text(r2) + rest;
        let mt = moves_text(x.1) + tail;
        lemma_moves_text_start(x.1);
        lemma_concat_start(moves_text(x.1), tail);
        assert(moves_ok(x.1));
        lemma_dec_plain(x.0 as nat);
        lemma_unsigned_round_trip(x.0 as nat);
        assert(" currline "@ =~= " "@ + "currline"@ + " "@);
        assert(plain_token("currline"@));
        lemma_key_value(" currline "@, "currline"@, dec_text(x.0 as nat), mt);
        let text = currlines_text(r) + rest;
        assert(text =~= " currline "@ + dec_text(x.0 as nat) + mt);
        lemma_moves_parse(x.1, tail);
        assert(a + seq![x] + r2 =~= a + r);
        lemma_insert_new(a, r2, x);
        let acc_a = InfoView { currline: a, ..acc };
        let acc_b = InfoView { currline: a.push(x), ..acc };
        lemma_currline_step(x.0, x.1, tail, acc_a);
        assert(info_spec(text, acc_a) == info_spec(tail, acc_b));
        assert(a.push(x) + r2 =~= a + r);
        lemma_currlines_parse(r2, a.push(x), acc, rest);
    }
}

/// No carriage return or line feed.
pub open spec fn no_break(s: Seq<char>) -> bool {
    forall|k: int| 0 <= k < s.len() ==> s[k] != '\r' && s[k] != '\n'
}

/// A `string` value as the parser leaves it: trimmed, on one line.
pub open spec fn clean_text(s: Seq<char>) -> bool {
    &&& s.len() == 0 || (!is_sep(s[0]) && !is_sep(s.last()))
    &&& no_break(s)
}

/// What an `info` value read from a line satisfies, and what writing it
/// back needs of its moves.
pub open spec fn info_ok(v: InfoView) -> bool {
    &&& (v.multipv matches Some(n) ==> multi_pv_in_range(n as int))
    &&& (v.currmove matches Some(m) ==> text_ok(m))
    &&& keys_unique(v.refutation)
    &&& keys_unique(v.currline)
    &&& forall|k: int|
        0 <= k < v.refutation.len() ==> text_ok(#[trigger] v.refutation[k].0) && moves_ok(
            v.refutation[k].1,
        )
    &&& forall|k: int| 0 <= k < v.currline.len() ==> moves_ok(#[trigger] v.currline[k].1)
    &&& (v.pv matches Some(p) ==> moves_ok(p))
    &&& (v.string matches Some(t) ==> clean_text(t))
}

/// The `i`-th field of an `info` line as written.
pub open spec fn piece(v: InfoView, i: int) -> Seq<char> {
    if i == 0 {
        field_text(" multipv "@, opt_dec32(v.multipv))
    } else if i == 1 {
        field_text(" depth "@, opt_dec32(v.depth))
    } else if i == 2 {
        field_text(" seldepth "@, opt_dec32(v.seldepth))
    } else if i == 3 {
        field_text(" time "@, opt_dec(v.time))
    } else if i == 4 {
        field_text(" nodes "@, opt_dec(v.nodes))
    } else if i == 5 {
        field_text(
            " score "@,
            match v.score {
                Some(s) => Some(score_text(s)),
                None => None,
            },
        )
    } else if i == 6 {
        field_text(
            " currmove "@,
            match v.currmove {
                Some(m) => Some(uci_text(m)),
                None => None,
            },
        )
    } else if i == 7 {
        field_text(" currmovenumber "@, opt_dec32(v.currmovenumber))
    } else if i == 8 {
        field_text(" hashfull "@, opt_dec32(v.hashfull))
    } else if i == 9 {
        field_text(" nps "@, opt_dec(v.nps))
    } else if i == 10 {
        field_text(" tbhits "@, opt_dec(v.tbhits))
    } else if i == 11 {
        field_text(" sbhits "@, opt_dec(v.sbhits))
    } else if i == 12 {
        field_text(" cpuload "@, opt_dec32(v.cpuload))
    } else if i == 13 {
        refutations_text(v.refutation)
    } else if i == 14 {
        currlines_text(v.currline)
    } else if i == 15 {
        field_text(
            " pv"@,
            match v.pv {
                Some(p) => Some(moves_text(p)),
                None => None,
            },
        )
    } else if i == 16 {
        field_text(" string "@, v.string)
    } else {
        Seq::empty()
    }
}

/// The fields from the `i`-th on.
pub open spec fn tail_text(v: InfoView, i: int) -> Seq<char>
    decreases 17 - i,
{
    if i >= 17 || i < 0 {
        Seq::empty()
    } else {
        piece(v, i) + tail_text(v, i + 1)
    }
}

/// `info` and the fields before the `i`-th.
pub open spec fn head_text(v: InfoView, i: int) -> Seq<char>
    decreases i,
{
    if i <= 0 {
        "info"@
    } else {
        head_text(v, i - 1) + piece(v, i - 1)
    }
}

proof fn lemma_head_tail(v: InfoView, i: int)
    requires
        0 <= i <= 17,
    ensures
        head_text(v, i) + tail_text(v, i) == "info"@ + tail_text(v, 0),
    decreases i,
{
    if i > 0 {
        lemma_head_tail(v, i - 1);
        assert(head_text(v, i) + tail_text(v, i) =~= head_text(v, i - 1) + tail_text(v, i - 1));
    }
}

pub proof fn lemma_info_text(v: InfoView)
    ensures
        info_text(v) == "info"@ + tail_text(v, 0),
{
    reveal_with_fuel(head_text, 18);
    assert(info_text(v) == head_text(v, 17));
    lemma_head_tail(v, 17);
    assert(head_text(v, 17) + tail_text(v, 17) =~= head_text(v, 17));
}

/// The fields before the `i`-th taken from `v`, the others empty.
pub open spec fn partial(v: InfoView, i: int) -> InfoView {
    InfoView {
        multipv: if i > 0 { v.multipv } else { None },
        depth: if i > 1 { v.depth } else { None },
        seldepth: if i > 2 { v.seldepth } else { None },
        time: if i > 3 { v.time } else { None },
        nodes: if i > 4 { v.nodes } else { None },
        score: if i > 5 { v.score } else { None },
        currmove: if i > 6 { v.currmove } else { None },
        currmovenumber: if i > 7 { v.currmovenumber } else { None },
        hashfull: if i > 8 { v.hashfull } else { None },
        nps: if i > 9 { v.nps } else { None },
        tbhits: if i > 10 { v.tbhits } else { None },
        sbhits: if i > 11 { v.sbhits } else { None },
        cpuload: if i > 12 { v.cpuload } else { None },
        refutation: if i > 13 { v.refutation } else { Seq::empty() },
        currline: if i > 14 { v.currline } else { Seq::empty() },
        pv: if i > 15 { v.pv } else { None },
        string: if i > 16 { v.string } else { None },
    }
}

/// A ` key value` field starts with a space and reads as its key.
proof fn lemma_kv_piece(key: Seq<char>, kw: Seq<char>, val: Seq<char>, rest: Seq<char>)
    requires
        key == " "@ + kw + " "@,
        plain_token(kw),
        plain_token(val),
        sep_or_end(rest),
    ensures
        read_spec(key + val + rest).0 == Some(kw),
        sep_or_end(key + val + rest),
{
    reveal_strlit(" ");
    lemma_key_value(key, kw, val, rest);
    assert((key + val + rest)[0] == key[0]);
}

/// What the shape lemma says of the fields from the `i`-th on.
pub open spec fn tail_shape(t: Seq<char>, i: int) -> bool {
    &&& sep_or_end(t)
    &&& i >= 6 ==> (read_spec(t).0 matches Some(k) ==> k != "lowerbound"@ && k != "upperbound"@)
    &&& i >= 13 ==> no_move_next(t)
}

#[verifier::spinoff_prover]
proof fn lemma_shape_front(v: InfoView, i: int, rest: Seq<char>)
    requires
        info_ok(v),
        0 <= i <= 5,
        piece(v, i).len() > 0,
        sep_or_end(rest),
    ensures
        tail_shape(piece(v, i) + rest, i),
{
    reveal_strlit(" ");
    let t = piece(v, i) + rest;
    if i == 0 {
        reveal_strlit(" multipv ");
    } else if i == 1 {
        reveal_strlit(" depth ");
    } else if i == 2 {
        reveal_strlit(" seldepth ");
    } else if i == 3 {
        reveal_strlit(" time ");
    } else if i == 4 {
        reveal_strlit(" nodes ");
    } else {
        reveal_strlit(" score ");
    }
    assert(t[0] == piece(v, i)[0]);
}

#[verifier::spinoff_prover]
proof fn lemma_shape_middle(v: InfoView, i: int, rest: Seq<char>)
    requires
        info_ok(v),
        6 <= i <= 12,
        piece(v, i).len() > 0,
        tail_shape(rest, i + 1),
    ensures
        tail_shape(piece(v, i) + rest, i),
{
    lemma_keywords();
    reveal_strlit(" ");
    if i == 6 {
        reveal_strlit(" currmove ");
        reveal_strlit("currmove");
        assert(" currmove "@ =~= " "@ + "currmove"@ + " "@);
        lemma_move_plain(v.currmove->0);
        lemma_kv_piece(" currmove "@, "currmove"@, uci_text(v.currmove->0), rest);
    } else if i == 7 {
        reveal_strlit(" currmovenumber ");
        reveal_strlit("currmovenumber");
        assert(" currmovenumber "@ =~= " "@ + "currmovenumber"@ + " "@);
        lemma_dec_plain(v.currmovenumber->0 as nat);
        lemma_kv_piece(
            " currmovenumber "@,
            "currmovenumber"@,
            dec_text(v.currmovenumber->0 as nat),
            rest,
        );
    } else if i == 8 {
        reveal_strlit(" hashfull ");
        reveal_strlit("hashfull");
        assert(" hashfull "@ =~= " "@ + "hashfull"@ + " "@);
        lemma_dec_plain(v.hashfull->0 as nat);
        lemma_kv_piece(" hashfull "@, "hashfull"@, dec_text(v.hashfull->0 as nat), rest);
    } else if i == 9 {
        reveal_strlit(" nps ");
        reveal_strlit("nps");
        assert(" nps "@ =~= " "@ + "nps"@ + " "@);
        lemma_dec_plain(v.nps->0 as nat);
        lemma_kv_piece(" nps "@, "nps"@, dec_text(v.nps->0 as nat), rest);
    } else if i == 10 {
        reveal_strlit(" tbhits ");
        reveal_strlit("tbhits");
        assert(" tbhits "@ =~= " "@ + "tbhits"@ + " "@);
        lemma_dec_plain(v.tbhits->0 as nat);
        lemma_kv_piece(" tbhits "@, "tbhits"@, dec_text(v.tbhits->0 as nat), rest);
    } else if i == 11 {
        reveal_strlit(" sbhits ");
        reveal_strlit("sbhits");
        assert(" sbhits "@ =~= " "@ + "sbhits"@ + " "@);
        lemma_dec_plain(v.sbhits->0 as nat);
        lemma_kv_piece(" sbhits "@, "sbhits"@, dec_text(v.sbhits->0 as nat), rest);
    } else {
        reveal_strlit(" cpuload ");
        reveal_strlit("cpuload");
        assert(" cpuload "@ =~= " "@ + "cpuload"@ + " "@);
        lemma_dec_plain(v.cpuload->0 as nat);
        lemma_kv_piece(" cpuload "@, "cpuload"@, dec_text(v.cpuload->0 as nat), rest);
    }
}

#[verifier::spinoff_prover]
proof fn lemma_shape_back(v: InfoView, i: int, rest: Seq<char>)
    requires
        info_ok(v),
        13 <= i <= 16,
        piece(v, i).len() > 0,
        tail_shape(rest, i + 1),
        i == 16 ==> rest == Seq::<char>::empty(),
    ensures
        tail_shape(piece(v, i) + rest, i),
{
    lemma_keywords();
    reveal_strlit(" ");
    let t = piece(v, i) + rest;
    if i == 13 {
        lemma_refutations_start(v.refutation, rest);
    } else if i == 14 {
        lemma_currlines_start(v.currline, rest);
    } else if i == 15 {
        reveal_strlit(" pv");
        reveal_strlit("pv");
        let p = v.pv->0;
        lemma_moves_text_start(p);
        lemma_concat_start(moves_text(p), rest);
        assert(t =~= " "@ + "pv"@ + (moves_text(p) + rest));
        lemma_read_token("pv"@, moves_text(p) + rest);
    } else {
        reveal_strlit(" string ");
        reveal_strlit("string");
        let x = v.string->0;
        assert(t =~= " "@ + "string"@ + (" "@ + x));
        assert((" "@ + x)[0] == ' ');
        lemma_read_token("string"@, " "@ + x);
    }
}

/// The fields from the `i`-th on start with a space; from the score's
/// successor on their first token is no bound flag, and from the
/// refutations on it is no move.
proof fn lemma_tail_shape(v: InfoView, i: int)
    requires
        info_ok(v),
        0 <= i <= 17,
    ensures
        tail_shape(tail_text(v, i), i),
    decreases 17 - i,
{
    if i == 17 {
        assert(read_spec(Seq::<char>::empty()).0 is None);
    } else {
        lemma_tail_shape(v, i + 1);
        let rest = tail_text(v, i + 1);
        if piece(v, i).len() == 0 {
            assert(tail_text(v, i) =~= rest);
            assert(tail_shape(rest, i + 1));
        } else if i <= 5 {
            lemma_shape_front(v, i, rest);
        } else if i <= 12 {
            lemma_shape_middle(v, i, rest);
        } else {
            lemma_shape_back(v, i, rest);
        }
    }
}

/// Bound flags as written read back, up to a token that is no flag.
proof fn lemma_bounds_parse(lower: bool, upper: bool, rest: Seq<char>)
    requires
        sep_or_end(rest),
        read_spec(rest).0 matches Some(k) ==> k != "lowerbound"@ && k != "upperbound"@,
    ensures
        bounds_spec(
            (if lower { " lowerbound"@ } else { Seq::<char>::empty() }) + (if upper {
                " upperbound"@
            } else {
                Seq::<char>::empty()
            }) + rest,
            false,
            false,
        ) == (lower, upper, rest),
{
    lemma_keywords();
    reveal_strlit(" lowerbound");
    reveal_strlit(" upperbound");
    reveal_strlit("lowerbound");
    reveal_strlit("upperbound");
    reveal_strlit(" ");
    assert(plain_token("lowerbound"@));
    assert(plain_token("upperbound"@));
    assert(" lowerbound"@ =~= " "@ + "lowerbound"@);
    assert(" upperbound"@ =~= " "@ + "upperbound"@);
    let b1 = if lower { " lowerbound"@ } else { Seq::<char>::empty() };
    let b2 = if upper { " upperbound"@ } else { Seq::<char>::empty() };
    let r2 = b2 + rest;
    if upper {
        assert(r2 =~= " "@ + "upperbound"@ + rest);
        lemma_read_token("upperbound"@, rest);
        assert(bounds_spec(rest, lower, true) == (lower, true, rest));
        assert(bounds_spec(r2, lower, false) == (lower, true, rest));
        assert(r2[0] == ' ');
    } else {
        assert(r2 =~= rest);
        assert(bounds_spec(rest, lower, false) == (lower, false, rest));
    }
    if lower {
        assert(b1 + b2 + rest =~= " "@ + "lowerbound"@ + r2);
        lemma_read_token("lowerbound"@, r2);
        assert(bounds_spec(r2, true, false) == (true, upper, rest)) by {
            if upper {
                lemma_read_token("upperbound"@, rest);
            }
        }
    } else {
        assert(b1 + b2 + rest =~= r2);
        if upper {
            lemma_read_token("upperbound"@, rest);
        }
    }
}

#[verifier::spinoff_prover]
proof fn lemma_eval_parse(e: Eval, r: Seq<char>)
    requires
        sep_or_end(r),
    ensures
        eval_spec(" "@ + eval_text(e) + r) == Ok::<(Eval, Seq<char>), crate::uci::ProtocolError>((e, r)),
{
    lemma_keywords();
    reveal_strlit(" ");
    reveal_strlit("cp ");
    reveal_strlit("mate ");
    reveal_strlit("cp");
    reveal_strlit("mate");
    match e {
        Eval::Cp(v) => {
            let sig = signed_text(v as int);
            lemma_signed_plain(v as int);
            lemma_signed_round_trip(v as int);
            assert(" "@ + eval_text(e) + r =~= " "@ + "cp"@ + (" "@ + sig + r));
            assert((" "@ + sig + r)[0] == ' ');
            lemma_read_token("cp"@, " "@ + sig + r);
            lemma_read_token(sig, r);
        },
        Eval::Mate(v) => {
            let sig = signed_text(v as int);
            lemma_signed_plain(v as int);
            lemma_signed_round_trip(v as int);
            assert(" "@ + eval_text(e) + r =~= " "@ + "mate"@ + (" "@ + sig + r));
            assert((" "@ + sig + r)[0] == ' ');
            lemma_read_token("mate"@, " "@ + sig + r);
            lemma_read_token(sig, r);
        },
    }
}

/// A score as written reads back, up to a token that is no bound flag.
proof fn lemma_score_parse(sc: Score, rest: Seq<char>)
    requires
        sep_or_end(rest),
        read_spec(rest).0 matches Some(k) ==> k != "lowerbound"@ && k != "upperbound"@,
    ensures
        score_spec(" "@ + score_text(sc) + rest) == Ok::<(Score, Seq<char>), crate::uci::ProtocolError>((sc, rest)),
{
    reveal_strlit(" lowerbound");
    reveal_strlit(" upperbound");
    let b1 = if sc.lowerbound { " lowerbound"@ } else { Seq::<char>::empty() };
    let b2 = if sc.upperbound { " upperbound"@ } else { Seq::<char>::empty() };
    let r = b1 + b2 + rest;
    assert(sep_or_end(r)) by {
        if sc.lowerbound {
            assert(r[0] == ' ');
        } else if sc.upperbound {
            assert(r[0] == ' ');
        } else {
            assert(r =~= rest);
        }
    }
    lemma_bounds_parse(sc.lowerbound, sc.upperbound, rest);
    assert(" "@ + score_text(sc) + rest =~= " "@ + eval_text(sc.eval) + r);
    lemma_eval_parse(sc.eval, r);
}

proof fn lemma_unfold_info(
    t: Seq<char>,
    kw: Seq<char>,
    r: Seq<char>,
    acc: InfoView,
    acc2: InfoView,
    rest: Seq<char>,
)
    requires
        read_spec(t) == (Some(kw), r),
        info_step(kw, r, acc) == Ok::<(InfoView, Seq<char>), ProtocolError>((acc2, rest)),
    ensures
        info_spec(t, acc) == info_spec(rest, acc2),
{
}

proof fn lemma_u32_arg(n: u32, rest: Seq<char>)
    requires
        sep_or_end(rest),
    ensures
        u32_arg(" "@ + dec_text(n as nat) + rest) == Ok::<(u32, Seq<char>), ProtocolError>((n, rest)),
{
    lemma_dec_plain(n as nat);
    lemma_unsigned_round_trip(n as nat);
    lemma_read_token(dec_text(n as nat), rest);
}

proof fn lemma_u64_arg(n: u64, rest: Seq<char>)
    requires
        sep_or_end(rest),
    ensures
        u64_arg(" "@ + dec_text(n as nat) + rest) == Ok::<(u64, Seq<char>), ProtocolError>((n, rest)),
{
    lemma_dec_plain(n as nat);
    lemma_unsigned_round_trip(n as nat);
    lemma_read_token(dec_text(n as nat), rest);
}

/// Reading a ` key value` field: the key, then the rest.
proof fn lemma_field_read(kw: Seq<char>, val: Seq<char>, rest: Seq<char>)
    requires
        plain_token(kw),
        plain_token(val),
        sep_or_end(rest),
    ensures
        read_spec(" "@ + kw + " "@ + val + rest) == (Some(kw), " "@ + val + rest),
{
    lemma_key_value(" "@ + kw + " "@, kw, val, rest);
}

#[verifier::spinoff_prover]
proof fn lemma_step_front(v: InfoView, i: int)
    requires
        info_ok(v),
        0 <= i <= 5,
        piece(v, i).len() > 0,
        tail_shape(tail_text(v, i + 1), i + 1),
    ensures
        info_spec(tail_text(v, i), partial(v, i)) == info_spec(tail_text(v, i + 1), partial(v, i + 1)),
{
    lemma_keywords();
    reveal_strlit(" ");
    let rest = tail_text(v, i + 1);
    let t = tail_text(v, i);
    assert(t == piece(v, i) + rest);
    if i == 0 {
        reveal_strlit(" multipv ");
        reveal_strlit("multipv");
        let n = v.multipv->0;
        let d = dec_text(n as nat);
        lemma_dec_plain(n as nat);
        assert(t =~= " "@ + "multipv"@ + " "@ + d + rest);
        lemma_field_read("multipv"@, d, rest);
        lemma_u32_arg(n, rest);
        assert(partial(v, 1) == InfoView { multipv: Some(n), ..partial(v, 0) });
        lemma_unfold_info(t, "multipv"@, " "@ + d + rest, partial(v, 0), partial(v, 1), rest);
    } else if i == 1 {
        reveal_strlit(" depth ");
        reveal_strlit("depth");
        let n = v.depth->0;
        let d = dec_text(n as nat);
        lemma_dec_plain(n as nat);
        assert(t =~= " "@ + "depth"@ + " "@ + d + rest);
        lemma_field_read("depth"@, d, rest);
        lemma_u32_arg(n, rest);
        assert(partial(v, 2) == InfoView { depth: Some(n), ..partial(v, 1) });
        lemma_unfold_info(t, "depth"@, " "@ + d + rest, partial(v, 1), partial(v, 2), rest);
    } else if i == 2 {
        reveal_strlit(" seldepth ");
        reveal_strlit("seldepth");
        let n = v.seldepth->0;
        let d = dec_text(n as nat);
        lemma_dec_plain(n as nat);
        assert(t =~= " "@ + "seldepth"@ + " "@ + d + rest);
        lemma_field_read("seldepth"@, d, rest);
        lemma_u32_arg(n, rest);
        assert(partial(v, 3) == InfoView { seldepth: Some(n), ..partial(v, 2) });
        lemma_unfold_info(t, "seldepth"@, " "@ + d + rest, partial(v, 2), partial(v, 3), rest);
    } else if i == 3 {
        reveal_strlit(" time ");
        reveal_strlit("time");
        let n = v.time->0;
        let d = dec_text(n as nat);
        lemma_dec_plain(n as nat);
        assert(t =~= " "@ + "time"@ + " "@ + d + rest);
        lemma_field_read("time"@, d, rest);
        lemma_u64_arg(n, rest);
        assert(partial(v, 4) == InfoView { time: Some(n), ..partial(v, 3) });
        lemma_unfold_info(t, "time"@, " "@ + d + rest, partial(v, 3), partial(v, 4), rest);
    } else if i == 4 {
        reveal_strlit(" nodes ");
        reveal_strlit("nodes");
        let n = v.nodes->0;
        let d = dec_text(n as nat);
        lemma_dec_plain(n as nat);
        assert(t =~= " "@ + "nodes"@ + " "@ + d + rest);
        lemma_field_read("nodes"@, d, rest);
        lemma_u64_arg(n, rest);
        assert(partial(v, 5) == InfoView { nodes: Some(n), ..partial(v, 4) });
        lemma_unfold_info(t, "nodes"@, " "@ + d + rest, partial(v, 4), partial(v, 5), rest);
    } else {
        reveal_strlit(" score ");
        reveal_strlit("score");
        let sc = v.score->0;
        let st = score_text(sc);
        let r = " "@ + st + rest;
        assert(t =~= " "@ + "score"@ + r);
        assert(r[0] == ' ');
        lemma_read_token("score"@, r);
        lemma_score_parse(sc, rest);
        assert(partial(v, 6) == InfoView { score: Some(sc), ..partial(v, 5) });
        lemma_unfold_info(t, "score"@, r, partial(v, 5), partial(v, 6), rest);
    }
}

proof fn lemma_move_arg(m: UciMove, rest: Seq<char>)
    requires
        text_ok(m),
        sep_or_end(rest),
    ensures
        move_arg(" "@ + uci_text(m) + rest) == Ok::<(UciMove, Seq<char>), ProtocolError>((m, rest)),
{
    lemma_move_plain(m);
    lemma_read_token(uci_text(m), rest);
}

#[verifier::spinoff_prover]
proof fn lemma_step_middle(v: InfoView, i: int)
    requires
        info_ok(v),
        6 <= i <= 12,
        piece(v, i).len() > 0,
        tail_shape(tail_text(v, i + 1), i + 1),
    ensures
        info_spec(tail_text(v, i), partial(v, i)) == info_spec(tail_text(v, i + 1), partial(v, i + 1)),
{
    lemma_keywords();
    reveal_strlit(" ");
    let rest = tail_text(v, i + 1);
    let t = tail_text(v, i);
    assert(t == piece(v, i) + rest);
    if i == 6 {
        reveal_strlit(" currmove ");
        reveal_strlit("currmove");
        let m = v.currmove->0;
        let d = uci_text(m);
        lemma_move_plain(m);
        assert(t =~= " "@ + "currmove"@ + " "@ + d + rest);
        lemma_field_read("currmove"@, d, rest);
        lemma_move_arg(m, rest);
        assert(partial(v, 7) == InfoView { currmove: Some(m), ..partial(v, 6) });
        lemma_unfold_info(t, "currmove"@, " "@ + d + rest, partial(v, 6), partial(v, 7), rest);
    } else if i == 7 {
        reveal_strlit(" currmovenumber ");
        reveal_strlit("currmovenumber");
        let n = v.currmovenumber->0;
        let d = dec_text(n as nat);
        lemma_dec_plain(n as nat);
        assert(t =~= " "@ + "currmovenumber"@ + " "@ + d + rest);
        lemma_field_read("currmovenumber"@, d, rest);
        lemma_u32_arg(n, rest);
        assert(partial(v, 8) == InfoView { currmovenumber: Some(n), ..partial(v, 7) });
        lemma_unfold_info(t, "currmovenumber"@, " "@ + d + rest, partial(v, 7), partial(v, 8), rest);
    } else if i == 8 {
        reveal_strlit(" hashfull ");
        reveal_strlit("hashfull");
        let n = v.hashfull->0;
        let d = dec_text(n as nat);
        lemma_dec_plain(n as nat);
        assert(t =~= " "@ + "hashfull"@ + " "@ + d + rest);
        lemma_field_read("hashfull"@, d, rest);
        lemma_u32_arg(n, rest);
        assert(partial(v, 9) == InfoView { hashfull: Some(n), ..partial(v, 8) });
        lemma_unfold_info(t, "hashfull"@, " "@ + d + rest, partial(v, 8), partial(v, 9), rest);
    } else if i == 9 {
        reveal_strlit(" nps ");
        reveal_strlit("nps");
        let n = v.nps->0;
        let d = dec_text(n as nat);
        lemma_dec_plain(n as nat);
        assert(t =~= " "@ + "nps"@ + " "@ + d + rest);
        lemma_field_read("nps"@, d, rest);
        lemma_u64_arg(n, rest);
        assert(partial(v, 10) == InfoView { nps: Some(n), ..partial(v, 9) });
        lemma_unfold_info(t, "nps"@, " "@ + d + rest, partial(v, 9), partial(v, 10), rest);
    } else if i == 10 {
        reveal_strlit(" tbhits ");
        reveal_strlit("tbhits");
        let n = v.tbhits->0;
        let d = dec_text(n as nat);
        lemma_dec_plain(n as nat);
        assert(t =~= " "@ + "tbhits"@ + " "@ + d + rest);
        lemma_field_read("tbhits"@, d, rest);
        lemma_u64_arg(n, rest);
        assert(partial(v, 11) == InfoView { tbhits: Some(n), ..partial(v, 10) });
        lemma_unfold_info(t, "tbhits"@, " "@ + d + rest, partial(v, 10), partial(v, 11), rest);
    } else if i == 11 {
        reveal_strlit(" sbhits ");
        reveal_strlit("sbhits");
        let n = v.sbhits->0;
        let d = dec_text(n as nat);
        lemma_dec_plain(n as nat);
        assert(t =~= " "@ + "sbhits"@ + " "@ + d + rest);
        lemma_field_read("sbhits"@, d, rest);
        lemma_u64_arg(n, rest);
        assert(partial(v, 12) == InfoView { sbhits: Some(n), ..partial(v, 11) });
        lemma_unfold_info(t, "sbhits"@, " "@ + d + rest, partial(v, 11), partial(v, 12), rest);
    } else {
        reveal_strlit(" cpuload ");
        reveal_strlit("cpuload");
        let n = v.cpuload->0;
        let d = dec_text(n as nat);
        lemma_dec_plain(n as nat);
        assert(t =~= " "@ + "cpuload"@ + " "@ + d + rest);
        lemma_field_read("cpuload"@, d, rest);
        lemma_u32_arg(n, rest);
        assert(partial(v, 13) == InfoView { cpuload: Some(n), ..partial(v, 12) });
        lemma_unfold_info(t, "cpuload"@, " "@ + d + rest, partial(v, 12), partial(v, 13), rest);
    }
}

proof fn lemma_string_value(x: Seq<char>)
    requires
        x.len() == 0 || (!is_sep(x[0]) && !is_sep(x.last())),
    ensures
        string_value(" "@ + x) == x,
{
    reveal_strlit(" ");
    let s = " "@ + x;
    assert(s[0] == ' ');
    if x.len() == 0 {
        assert(skip_seps(s, 1) == 1);
        assert(read_spec(s).0 is None);
    } else {
        assert(s[1] == x[0]);
        assert(skip_seps(s, 1) == 1);
        assert(skip_seps(s, 0) == 1);
        assert(s.subrange(1, s.len() as int) =~= x);
        assert(trim_end(x) == x);
    }
}

#[verifier::spinoff_prover]
proof fn lemma_step_back(v: InfoView, i: int)
    requires
        info_ok(v),
        13 <= i <= 16,
        piece(v, i).len() > 0,
        tail_shape(tail_text(v, i + 1), i + 1),
    ensures
        info_spec(tail_text(v, i), partial(v, i)) == info_spec(tail_text(v, i + 1), partial(v, i + 1)),
{
    lemma_keywords();
    reveal_strlit(" ");
    let rest = tail_text(v, i + 1);
    let t = tail_text(v, i);
    assert(t == piece(v, i) + rest);
    if i == 13 {
        let e = Seq::<(UciMove, Seq<UciMove>)>::empty();
        assert(e + v.refutation =~= v.refutation);
        lemma_refutations_parse(v.refutation, e, partial(v, 13), rest);
        assert(InfoView { refutation: e, ..partial(v, 13) } == partial(v, 13));
        assert(InfoView { refutation: e + v.refutation, ..partial(v, 13) } == partial(v, 14));
    } else if i == 14 {
        let e = Seq::<(u32, Seq<UciMove>)>::empty();
        assert(e + v.currline =~= v.currline);
        lemma_currlines_parse(v.currline, e, partial(v, 14), rest);
        assert(InfoView { currline: e, ..partial(v, 14) } == partial(v, 14));
        assert(InfoView { currline: e + v.currline, ..partial(v, 14) } == partial(v, 15));
    } else if i == 15 {
        reveal_strlit(" pv");
        reveal_strlit("pv");
        let p = v.pv->0;
        let r = moves_text(p) + rest;
        lemma_moves_text_start(p);
        lemma_concat_start(moves_text(p), rest);
        assert(t =~= " "@ + "pv"@ + r);
        lemma_read_token("pv"@, r);
        lemma_moves_parse(p, rest);
        assert(partial(v, 16) == InfoView { pv: Some(p), ..partial(v, 15) });
        lemma_unfold_info(t, "pv"@, r, partial(v, 15), partial(v, 16), rest);
    } else {
        reveal_strlit(" string ");
        reveal_strlit("string");
        let x = v.string->0;
        let r = " "@ + x;
        assert(rest == Seq::<char>::empty());
        assert(t =~= " "@ + "string"@ + r);
        assert(r[0] == ' ');
        lemma_read_token("string"@, r);
        lemma_string_value(x);
        assert(partial(v, 17) == InfoView { string: Some(x), ..partial(v, 16) });
        lemma_unfold_info(t, "string"@, r, partial(v, 16), partial(v, 17), rest);
    }
}

/// Reading the fields from the `i`-th on, after those before, gives `v`.
proof fn lemma_info_from(v: InfoView, i: int)
    requires
        info_ok(v),
        0 <= i <= 17,
    ensures
        info_spec(tail_text(v, i), partial(v, i)) == Ok::<InfoView, ProtocolError>(v),
    decreases 17 - i,
{
    if i == 17 {
        assert(partial(v, 17) == v);
        assert(read_spec(Seq::<char>::empty()).0 is None);
    } else {
        lemma_info_from(v, i + 1);
        lemma_tail_shape(v, i + 1);
        if piece(v, i).len() == 0 {
            assert(tail_text(v, i) =~= tail_text(v, i + 1));
            assert(partial(v, i) == partial(v, i + 1)) by {
                if i == 13 {
                    assert(refutations_text(v.refutation).len() == 0);
                    if v.refutation.len() > 0 {
                        lemma_refutations_front(v.refutation[0], v.refutation.drop_first());
                        assert(v.refutation =~= seq![v.refutation[0]] + v.refutation.drop_first());
                    }
                    assert(v.refutation =~= Seq::<(UciMove, Seq<UciMove>)>::empty());
                } else if i == 14 {
                    if v.currline.len() > 0 {
                        lemma_currlines_front(v.currline[0], v.currline.drop_first());
                        assert(v.currline =~= seq![v.currline[0]] + v.currline.drop_first());
                    }
                    assert(v.currline =~= Seq::<(u32, Seq<UciMove>)>::empty());
                } else {
                    reveal_strlit(" multipv ");
                    reveal_strlit(" depth ");
                    reveal_strlit(" seldepth ");
                    reveal_strlit(" time ");
                    reveal_strlit(" nodes ");
                    reveal_strlit(" score ");
                    reveal_strlit(" currmove ");
                    reveal_strlit(" currmovenumber ");
                    reveal_strlit(" hashfull ");
                    reveal_strlit(" nps ");
                    reveal_strlit(" tbhits ");
                    reveal_strlit(" sbhits ");
                    reveal_strlit(" cpuload ");
                    reveal_strlit(" pv");
                    reveal_strlit(" string ");
                }
            }
        } else if i <= 5 {
            lemma_step_front(v, i);
        } else if i <= 12 {
            lemma_step_middle(v, i);
        } else {
            lemma_step_back(v, i);
        }
    }
}

proof fn lemma_nb_concat(a: Seq<char>, b: Seq<char>)
    requires
        no_break(a),
        no_break(b),
    ensures
        no_break(a + b),
{
    assert forall|k: int| 0 <= k < (a + b).len() implies (a + b)[k] != '\r' && (a + b)[k] != '\n' by {
        if k < a.len() {
            assert((a + b)[k] == a[k]);
        } else {
            assert((a + b)[k] == b[k - a.len()]);
        }
    }
}

proof fn lemma_nb_dec(n: nat)
    ensures
        no_break(dec_text(n)),
{
    lemma_dec_text(n);
    assert forall|k: int| 0 <= k < dec_text(n).len() implies dec_text(n)[k] != '\r' && dec_text(n)[k] != '\n' by {
        assert(crate::token::is_digit(dec_text(n)[k]));
    }
}

proof fn lemma_nb_signed(i: int)
    ensures
        no_break(signed_text(i)),
{
    if i < 0 {
        lemma_nb_dec((-i) as nat);
        assert(no_break(seq!['-']));
        lemma_nb_concat(seq!['-'], dec_text((-i) as nat));
    } else {
        lemma_nb_dec(i as nat);
    }
}

proof fn lemma_nb_move(m: UciMove)
    requires
        text_ok(m),
    ensures
        no_break(uci_text(m)),
{
    assert forall|k: int| 0 <= k < uci_text(m).len() implies uci_text(m)[k] != '\r' && uci_text(m)[k] != '\n' by {
        assert(move_char(uci_text(m)[k]));
    }
}

proof fn lemma_nb_space_move(m: UciMove)
    requires
        text_ok(m),
    ensures
        no_break(" "@ + uci_text(m)),
{
    reveal_strlit(" ");
    lemma_nb_move(m);
    assert(no_break(" "@));
    lemma_nb_concat(" "@, uci_text(m));
}

proof fn lemma_nb_moves(ms: Seq<UciMove>)
    requires
        moves_ok(ms),
    ensures
        no_break(moves_text(ms)),
    decreases ms.len(),
{
    if ms.len() > 0 {
        assert(moves_ok(ms.drop_last())) by {
            assert forall|k: int| 0 <= k < ms.drop_last().len() implies text_ok(#[trigger] ms.drop_last()[k]) by {
                assert(ms.drop_last()[k] == ms[k]);
            }
        }
        lemma_nb_moves(ms.drop_last());
        assert(text_ok(ms[ms.len() - 1]));
        lemma_nb_space_move(ms.last());
        assert(moves_text(ms) =~= moves_text(ms.drop_last()) + (" "@ + uci_text(ms.last())));
        lemma_nb_concat(moves_text(ms.drop_last()), " "@ + uci_text(ms.last()));
    }
}

proof fn lemma_nb_refutations(r: Seq<(UciMove, Seq<UciMove>)>)
    requires
        forall|k: int| 0 <= k < r.len() ==> text_ok(#[trigger] r[k].0) && moves_ok(r[k].1),
    ensures
        no_break(refutations_text(r)),
    decreases r.len(),
{
    reveal_strlit(" refutation ");
    if r.len() > 0 {
        let x = r.last();
        assert forall|k: int| 0 <= k < r.drop_last().len() implies text_ok(#[trigger] r.drop_last()[k].0) && moves_ok(r.drop_last()[k].1) by {
            assert(r.drop_last()[k] == r[k]);
        }
        lemma_nb_refutations(r.drop_last());
        assert(text_ok(r[r.len() - 1].0) && moves_ok(r[r.len() - 1].1));
        lemma_nb_move(x.0);
        lemma_nb_moves(x.1);
        assert(no_break(" refutation "@));
        lemma_nb_concat(" refutation "@, uci_text(x.0));
        lemma_nb_concat(" refutation "@ + uci_text(x.0), moves_text(x.1));
        assert(refutations_text(r) =~= refutations_text(r.drop_last()) + (" refutation "@ + uci_text(x.0) + moves_text(x.1)));
        lemma_nb_concat(refutations_text(r.drop_last()), " refutation "@ + uci_text(x.0) + moves_text(x.1));
    }
}

proof fn lemma_nb_currlines(r: Seq<(u32, Seq<UciMove>)>)
    requires
        forall|k: int| 0 <= k < r.len() ==> moves_ok(#[trigger] r[k].1),
    ensures
        no_break(currlines_text(r)),
    decreases r.len(),
{
    reveal_strlit(" currline ");
    if r.len() > 0 {
        let x = r.last();
        assert forall|k: int| 0 <= k < r.drop_last().len() implies moves_ok(#[trigger] r.drop_last()[k].1) by {
            assert(r.drop_last()[k] == r[k]);
        }
        lemma_nb_currlines(r.drop_last());
        assert(moves_ok(r[r.len() - 1].1));
        lemma_nb_dec(x.0 as nat);
        lemma_nb_moves(x.1);
        assert(no_break(" currline "@));
        lemma_nb_concat(" currline "@, dec_text(x.0 as nat));
        lemma_nb_concat(" currline "@ + dec_text(x.0 as nat), moves_text(x.1));
        assert(currlines_text(r) =~= currlines_text(r.drop_last()) + (" currline "@ + dec_text(x.0 as nat) + moves_text(x.1)));
        lemma_nb_concat(currlines_text(r.drop_last()), " currline "@ + dec_text(x.0 as nat) + moves_text(x.1));
    }
}

proof fn lemma_nb_score(sc: Score)
    ensures
        no_break(score_text(sc)),
{
    reveal_strlit("cp ");
    reveal_strlit("mate ");
    reveal_strlit(" lowerbound");
    reveal_strlit(" upperbound");
    let e = eval_text(sc.eval);
    match sc.eval {
        Eval::Cp(v) => {
            lemma_nb_signed(v as int);
            assert(no_break("cp "@));
            lemma_nb_concat("cp "@, signed_text(v as int));
        },
        Eval::Mate(v) => {
            lemma_nb_signed(v as int);
            assert(no_break("mate "@));
            lemma_nb_concat("mate "@, signed_text(v as int));
        },
    }
    let b1 = if sc.lowerbound { " lowerbound"@ } else { Seq::<char>::empty() };
    let b2 = if sc.upperbound { " upperbound"@ } else { Seq::<char>::empty() };
    assert(no_break(b1));
    assert(no_break(b2));
    lemma_nb_concat(e, b1);
    lemma_nb_concat(e + b1, b2);
}

/// A field with a known key and value on one line is on one line.
proof fn lemma_nb_field(key: Seq<char>, val: Option<Seq<char>>)
    requires
        no_break(key),
        val matches Some(x) ==> no_break(x),
    ensures
        no_break(field_text(key, val)),
{
    if let Some(x) = val {
        lemma_nb_concat(key, x);
    }
}

#[verifier::spinoff_prover]
proof fn lemma_nb_piece(v: InfoView, i: int)
    requires
        info_ok(v),
        0 <= i < 17,
    ensures
        no_break(piece(v, i)),
{
    if i == 0 {
        reveal_strlit(" multipv ");
        if let Some(n) = v.multipv { lemma_nb_dec(n as nat); }
        lemma_nb_field(" multipv "@, opt_dec32(v.multipv));
    } else if i == 1 {
        reveal_strlit(" depth ");
        if let Some(n) = v.depth { lemma_nb_dec(n as nat); }
        lemma_nb_field(" depth "@, opt_dec32(v.depth));
    } else if i == 2 {
        reveal_strlit(" seldepth ");
        if let Some(n) = v.seldepth { lemma_nb_dec(n as nat); }
        lemma_nb_field(" seldepth "@, opt_dec32(v.seldepth));
    } else if i == 3 {
        reveal_strlit(" time ");
        if let Some(n) = v.time { lemma_nb_dec(n as nat); }
        lemma_nb_field(" time "@, opt_dec(v.time));
    } else if i == 4 {
        reveal_strlit(" nodes ");
        if let Some(n) = v.nodes { lemma_nb_dec(n as nat); }
        lemma_nb_field(" nodes "@, opt_dec(v.nodes));
    } else if i == 5 {
        reveal_strlit(" score ");
        if let Some(sc) = v.score { lemma_nb_score(sc); }
        lemma_nb_field(" score "@, match v.score { Some(s) => Some(score_text(s)), None => None });
    } else if i == 6 {
        reveal_strlit(" currmove ");
        if let Some(m) = v.currmove { lemma_nb_move(m); }
        lemma_nb_field(" currmove "@, match v.currmove { Some(m) => Some(uci_text(m)), None => None });
    } else if i == 7 {
        reveal_strlit(" currmovenumber ");
        if let Some(n) = v.currmovenumber { lemma_nb_dec(n as nat); }
        lemma_nb_field(" currmovenumber "@, opt_dec32(v.currmovenumber));
    } else if i == 8 {
        reveal_strlit(" hashfull ");
        if let Some(n) = v.hashfull { lemma_nb_dec(n as nat); }
        lemma_nb_field(" hashfull "@, opt_dec32(v.hashfull));
    } else if i == 9 {
        reveal_strlit(" nps ");
        if let Some(n) = v.nps { lemma_nb_dec(n as nat); }
        lemma_nb_field(" nps "@, opt_dec(v.nps));
    } else if i == 10 {
        reveal_strlit(" tbhits ");
        if let Some(n) = v.tbhits { lemma_nb_dec(n as nat); }
        lemma_nb_field(" tbhits "@, opt_dec(v.tbhits));
    } else if i == 11 {
        reveal_strlit(" sbhits ");
        if let Some(n) = v.sbhits { lemma_nb_dec(n as nat); }
        lemma_nb_field(" sbhits "@, opt_dec(v.sbhits));
    } else if i == 12 {
        reveal_strlit(" cpuload ");
        if let Some(n) = v.cpuload { lemma_nb_dec(n as nat); }
        lemma_nb_field(" cpuload "@, opt_dec32(v.cpuload));
    } else if i == 13 {
        lemma_nb_refutations(v.refutation);
    } else if i == 14 {
        lemma_nb_currlines(v.currline);
    } else if i == 15 {
        reveal_strlit(" pv");
        if let Some(p) = v.pv { lemma_nb_moves(p); }
        lemma_nb_field(" pv"@, match v.pv { Some(p) => Some(moves_text(p)), None => None });
    } else {
        reveal_strlit(" string ");
        lemma_nb_field(" string "@, v.string);
    }
}

proof fn lemma_nb_tail(v: InfoView, i: int)
    requires
        info_ok(v),
        0 <= i <= 17,
    ensures
        no_break(tail_text(v, i)),
    decreases 17 - i,
{
    if i < 17 {
        lemma_nb_tail(v, i + 1);
        lemma_nb_piece(v, i);
        lemma_nb_concat(piece(v, i), tail_text(v, i + 1));
    }
}

/// An `info` value whose moves write out readably reads back from its line.
pub proof fn lemma_info_line(v: InfoView)
    requires
        info_ok(v),
    ensures
        parse_line(line_text(UciOutView::Info(v))) == Ok::<Option<UciOutView>, ProtocolError>(Some(UciOutView::Info(v))),
{
    lemma_keywords();
    reveal_strlit("info");
    lemma_info_text(v);
    let t0 = tail_text(v, 0);
    lemma_tail_shape(v, 0);
    lemma_nb_tail(v, 0);
    assert(no_break("info"@));
    lemma_nb_concat("info"@, t0);
    lemma_read_token("info"@, t0);
    lemma_info_from(v, 0);
    assert(partial(v, 0) == empty_info());
}

/// A `bestmove` value whose moves write out readably reads back from its line.
pub proof fn lemma_bestmove_line(m: Option<UciMove>, ponder: Option<UciMove>)
    requires
        m matches Some(x) ==> text_ok(x),
        ponder matches Some(x) ==> text_ok(x),
    ensures
        parse_line(line_text(UciOutView::Bestmove { m, ponder })) == Ok::<Option<UciOutView>, ProtocolError>(
            Some(UciOutView::Bestmove { m, ponder }),
        ),
{
    lemma_keywords();
    reveal_strlit("bestmove ");
    reveal_strlit("bestmove");
    reveal_strlit("(none)");
    reveal_strlit(" ponder ");
    reveal_strlit("ponder");
    reveal_strlit(" ");
    let mt = match m {
        Some(x) => uci_text(x),
        None => "(none)"@,
    };
    let pt = field_text(" ponder "@, match ponder { Some(p) => Some(uci_text(p)), None => None });
    let text = bestmove_text(m, ponder);
    assert(text == "bestmove "@ + mt + pt);
    assert(plain_token(mt)) by {
        if let Some(x) = m {
            lemma_move_plain(x);
        }
    }
    assert(no_break(mt)) by {
        if let Some(x) = m {
            lemma_nb_move(x);
        }
    }
    assert(sep_or_end(pt));
    assert(no_break(pt)) by {
        if let Some(p) = ponder {
            lemma_nb_move(p);
            assert(no_break(" ponder "@));
            lemma_nb_concat(" ponder "@, uci_text(p));
        }
    }
    assert(no_break("bestmove "@));
    lemma_nb_concat("bestmove "@, mt);
    lemma_nb_concat("bestmove "@ + mt, pt);
    assert(text =~= "bestmove"@ + (" "@ + mt + pt));
    assert((" "@ + mt + pt)[0] == ' ');
    lemma_read_token("bestmove"@, " "@ + mt + pt);
    lemma_read_token(mt, pt);
    assert(optional_move(Some(mt)) == Ok::<Option<UciMove>, ProtocolError>(m)) by {
        if let Some(x) = m {
            lemma_move_plain(x);
            assert(mt.len() != 6);
        }
    }
    if let Some(p) = ponder {
        lemma_move_plain(p);
        assert(pt =~= " "@ + "ponder"@ + " "@ + uci_text(p) + Seq::<char>::empty());
        lemma_field_read("ponder"@, uci_text(p), Seq::<char>::empty());
        lemma_read_token(uci_text(p), Seq::<char>::empty());
        assert(" "@ + uci_text(p) + Seq::<char>::empty() =~= " "@ + uci_text(p));
        assert(uci_text(p).len() != 6);
    } else {
        assert(read_spec(pt).0 is None);
    }
}

/// A move that some token names.
pub open spec fn parsed_move(m: UciMove) -> bool {
    exists|t: Seq<char>| move_of(t) == Some(m)
}

pub open spec fn moves_parsed(ms: Seq<UciMove>) -> bool {
    forall|k: int| 0 <= k < ms.len() ==> parsed_move(#[trigger] ms[k])
}

/// What every `info` value the parser returns satisfies.
pub open spec fn info_parsed(v: InfoView) -> bool {
    &&& (v.multipv matches Some(n) ==> multi_pv_in_range(n as int))
    &&& (v.currmove matches Some(m) ==> parsed_move(m))
    &&& keys_unique(v.refutation)
    &&& keys_unique(v.currline)
    &&& forall|k: int|
        0 <= k < v.refutation.len() ==> parsed_move(#[trigger] v.refutation[k].0) && moves_parsed(
            v.refutation[k].1,
        )
    &&& forall|k: int| 0 <= k < v.currline.len() ==> moves_parsed(#[trigger] v.currline[k].1)
    &&& (v.pv matches Some(p) ==> moves_parsed(p))
    &&& (v.string matches Some(t) ==> clean_text(t))
}

/// What every value the parser returns satisfies.
pub open spec fn out_parsed(u: UciOutView) -> bool {
    match u {
        UciOutView::Bestmove { m, ponder } => (m matches Some(x) ==> parsed_move(x)) && (
        ponder matches Some(x) ==> parsed_move(x)),
        UciOutView::Info(v) => info_parsed(v),
    }
}

proof fn lemma_nb_sub(s: Seq<char>, i: int, j: int)
    requires
        no_break(s),
        0 <= i <= j <= s.len(),
    ensures
        no_break(s.subrange(i, j)),
{
    assert forall|k: int| 0 <= k < s.subrange(i, j).len() implies s.subrange(i, j)[k] != '\r'
        && s.subrange(i, j)[k] != '\n' by {
        assert(s.subrange(i, j)[k] == s[i + k]);
    }
}

proof fn lemma_nb_read(s: Seq<char>)
    requires
        no_break(s),
    ensures
        no_break(read_spec(s).1),
        read_spec(s).0 matches Some(t) ==> no_break(t),
{
    lemma_skip_seps(s, 0);
    let i = skip_seps(s, 0);
    if i < s.len() {
        crate::token::lemma_token_end(s, i);
        lemma_nb_sub(s, i, token_end(s, i));
        lemma_nb_sub(s, token_end(s, i), s.len() as int);
    }
}

proof fn lemma_moves_parsed(s: Seq<char>)
    requires
        no_break(s),
    ensures
        moves_parsed(moves_spec(s).0),
        no_break(moves_spec(s).1),
    decreases s.len(),
{
    lemma_read(s);
    lemma_nb_read(s);
    if let (Some(t), r) = read_spec(s) {
        if let Some(m) = move_of(t) {
            lemma_moves_parsed(r);
            let ms = moves_spec(r).0;
            assert(parsed_move(m));
            assert forall|k: int| 0 <= k < (seq![m] + ms).len() implies parsed_move(#[trigger] (seq![m] + ms)[k]) by {
                if k > 0 {
                    assert((seq![m] + ms)[k] == ms[k - 1]);
                }
            }
        }
    }
}

proof fn lemma_bounds_nb(s: Seq<char>, lower: bool, upper: bool)
    requires
        no_break(s),
    ensures
        no_break(bounds_spec(s, lower, upper).2),
    decreases s.len(),
{
    lemma_read(s);
    lemma_nb_read(s);
    if let (Some(t), r) = read_spec(s) {
        lemma_bounds_nb(r, true, upper);
        lemma_bounds_nb(r, lower, true);
    }
}

proof fn lemma_score_nb(s: Seq<char>)
    requires
        no_break(s),
    ensures
        score_spec(s) matches Ok((_, r)) ==> no_break(r),
{
    lemma_nb_read(s);
    lemma_nb_read(read_spec(s).1);
    lemma_nb_read(read_spec(read_spec(s).1).1);
    lemma_bounds_nb(read_spec(read_spec(s).1).1, false, false);
}

proof fn lemma_trim_end(x: Seq<char>)
    ensures
        trim_end(x).len() <= x.len(),
        trim_end(x) == x.subrange(0, trim_end(x).len() as int),
        trim_end(x).len() > 0 ==> !is_sep(x[trim_end(x).len() - 1]),
    decreases x.len(),
{
    if x.len() > 0 && is_sep(x.last()) {
        lemma_trim_end(x.drop_last());
        assert(x.drop_last().subrange(0, trim_end(x).len() as int) =~= x.subrange(0, trim_end(x).len() as int));
    } else {
        assert(x.subrange(0, x.len() as int) =~= x);
    }
}

proof fn lemma_string_clean(s: Seq<char>)
    requires
        no_break(s),
    ensures
        clean_text(string_value(s)),
{
    if read_spec(s).0 is Some {
        lemma_skip_seps(s, 0);
        let i = skip_seps(s, 0);
        let x = s.subrange(i, s.len() as int);
        lemma_nb_sub(s, i, s.len() as int);
        lemma_trim_end(x);
        let t = trim_end(x);
        lemma_nb_sub(x, 0, t.len() as int);
        if t.len() > 0 {
            assert(t[0] == x[0]);
            assert(x[0] == s[i]);
            assert(t.last() == x[t.len() - 1]);
        }
    }
}

#[verifier::spinoff_prover]
#[verifier::rlimit(50)]
proof fn lemma_step_parsed(k: Seq<char>, s: Seq<char>, acc: InfoView)
    requires
        info_parsed(acc),
        no_break(s),
    ensures
        info_step(k, s, acc) matches Ok((a, r)) ==> info_parsed(a) && no_break(r),
{
    lemma_keywords();
    lemma_nb_read(s);
    lemma_nb_read(read_spec(s).1);
    lemma_moves_parsed(s);
    lemma_moves_parsed(read_spec(s).1);
    lemma_score_nb(s);
    lemma_string_clean(s);
    assert(no_break(Seq::<char>::empty()));
    if let Some(t) = read_spec(s).0 {
        if let Some(m) = move_of(t) {
            assert(parsed_move(m));
        }
    }
    lemma_insert_wf(acc.refutation, move_of(read_spec(s).0->0)->0, moves_spec(read_spec(s).1).0);
    lemma_insert_wf(acc.currline, crate::token::u32_of(read_spec(s).0->0)->0, moves_spec(read_spec(s).1).0);
    if let Ok((a, r)) = info_step(k, s, acc) {
        if k == "refutation"@ {
            let m = move_of(read_spec(s).0->0)->0;
            let ms = moves_spec(read_spec(s).1).0;
            let t = assoc_insert(acc.refutation, m, ms);
            assert(parsed_move(m)) by {
                assert(move_of(read_spec(s).0->0) == Some(m));
            }
            assert(moves_parsed(ms));
            assert forall|x: int| 0 <= x < t.len() implies parsed_move(#[trigger] t[x].0) && moves_parsed(t[x].1) by {
                if t[x] != (m, ms) {
                    let y = choose|y: int| 0 <= y < acc.refutation.len() && acc.refutation[y] == t[x];
                    assert(parsed_move(acc.refutation[y].0));
                }
            }
        } else if k == "currline"@ {
            let n = crate::token::u32_of(read_spec(s).0->0)->0;
            let ms = moves_spec(read_spec(s).1).0;
            let t = assoc_insert(acc.currline, n, ms);
            assert forall|x: int| 0 <= x < t.len() implies moves_parsed(#[trigger] t[x].1) by {
                if t[x] != (n, ms) {
                    let y = choose|y: int| 0 <= y < acc.currline.len() && acc.currline[y] == t[x];
                    assert(moves_parsed(acc.currline[y].1));
                }
            }
        }
    }
}

proof fn lemma_info_parsed(s: Seq<char>, acc: InfoView)
    requires
        info_parsed(acc),
        no_break(s),
    ensures
        info_spec(s, acc) matches Ok(v) ==> info_parsed(v),
    decreases s.len(),
{
    lemma_read(s);
    lemma_nb_read(s);
    if let (Some(k), r) = read_spec(s) {
        lemma_step_parsed(k, r, acc);
        crate::uci::lemma_step_shrinks(k, r, acc);
        if let Ok((a, r2)) = info_step(k, r, acc) {
            lemma_info_parsed(r2, a);
        }
    }
}

/// Every value the parser returns has the shape that writing it back needs.
pub proof fn lemma_parsed_shape(s: Seq<char>)
    ensures
        parse_line(s) matches Ok(Some(u)) ==> out_parsed(u),
{
    if !has_line_break(s) {
        assert(no_break(s));
        lemma_nb_read(s);
        let r = read_spec(s).1;
        lemma_nb_read(r);
        assert(info_parsed(empty_info()));
        lemma_info_parsed(r, empty_info());
        if let Some(t) = read_spec(r).0 {
            if let Some(m) = move_of(t) {
                assert(parsed_move(m));
            }
        }
        if let Some(t) = read_spec(read_spec(read_spec(r).1).1).0 {
            if let Some(m) = move_of(t) {
                assert(parsed_move(m));
            }
        }
    }
}

/// Under `out_parsed`, where the moves write out readably, the line reads back.
pub proof fn lemma_line_round_trip(u: UciOutView)
    requires
        match u {
            UciOutView::Bestmove { m, ponder } => (m matches Some(x) ==> text_ok(x)) && (
            ponder matches Some(x) ==> text_ok(x)),
            UciOutView::Info(v) => info_ok(v),
        },
    ensures
        parse_line(line_text(u)) == Ok::<Option<UciOutView>, ProtocolError>(Some(u)),
{
    match u {
        UciOutView::Bestmove { m, ponder } => lemma_bestmove_line(m, ponder),
        UciOutView::Info(v) => lemma_info_line(v),
    }
}

} // verus!
