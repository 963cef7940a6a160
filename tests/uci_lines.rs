use lila_engine::chess::UciMove;
use lila_engine::model::MultiPv;
use lila_engine::uci::{Eval, ProtocolError, Score, UciOut};

fn mv(s: &str) -> UciMove {
    UciMove::parse(s).unwrap()
}

fn info(line: &str) -> lila_engine::uci::Info {
    match UciOut::from_line(line).unwrap().unwrap() {
        UciOut::Info(i) => i,
        other => panic!("not an info line: {:?}", other),
    }
}

#[test]
fn parses_bestmove_with_ponder() {
    match UciOut::from_line("bestmove e2e4 ponder e7e5").unwrap().unwrap() {
        UciOut::Bestmove { m, ponder } => {
            assert_eq!(m, Some(mv("e2e4")));
            assert_eq!(ponder, Some(mv("e7e5")));
        }
        other => panic!("{:?}", other),
    }
    match UciOut::from_line("bestmove (none)").unwrap().unwrap() {
        UciOut::Bestmove { m, ponder } => {
            assert_eq!(m, None);
            assert_eq!(ponder, None);
        }
        other => panic!("{:?}", other),
    }
}

#[test]
fn ignores_unknown_lines() {
    assert!(UciOut::from_line("id name Stockfish").unwrap().is_none());
    assert!(UciOut::from_line("readyok").unwrap().is_none());
    assert!(UciOut::from_line("   ").unwrap().is_none());
}

#[test]
fn parses_info_fields() {
    let i = info("info multipv 2 depth 12 seldepth 20 time 1500 nodes 123456789012 score mate -3 upperbound currmove g1f3 currmovenumber 4 hashfull 500 nps 99 tbhits 1 sbhits 2 cpuload 800 refutation d1h5 g6h5 currline 1 e2e4 pv e2e4 e7e5 string hello  world ");
    assert_eq!(i.multipv, Some(MultiPv::try_from(2).unwrap()));
    assert_eq!(i.depth, Some(12));
    assert_eq!(i.seldepth, Some(20));
    assert_eq!(i.time, Some(1500));
    assert_eq!(i.nodes, Some(123456789012));
    assert_eq!(
        i.score,
        Some(Score { eval: Eval::Mate(-3), lowerbound: false, upperbound: true })
    );
    assert_eq!(i.currmove, Some(mv("g1f3")));
    assert_eq!(i.currmovenumber, Some(4));
    assert_eq!(i.hashfull, Some(500));
    assert_eq!(i.nps, Some(99));
    assert_eq!(i.tbhits, Some(1));
    assert_eq!(i.sbhits, Some(2));
    assert_eq!(i.cpuload, Some(800));
    assert_eq!(i.refutation, vec![(mv("d1h5"), vec![mv("g6h5")])]);
    assert_eq!(i.currline, vec![(1, vec![mv("e2e4")])]);
    assert_eq!(i.pv, Some(vec![mv("e2e4"), mv("e7e5")]));
    assert_eq!(i.string.as_deref(), Some("hello  world"));
}

#[test]
fn repeated_keys_overwrite() {
    let i = info("info depth 1 depth 2 currline 1 e2e4 currline 1 d2d4 currline 2 c2c4");
    assert_eq!(i.depth, Some(2));
    assert_eq!(i.currline, vec![(1, vec![mv("d2d4")]), (2, vec![mv("c2c4")])]);
}

#[test]
fn protocol_errors() {
    assert_eq!(UciOut::from_line("bestmove e2e4 foo").unwrap_err(), ProtocolError::UnexpectedToken);
    assert_eq!(UciOut::from_line("info depth 3\n").unwrap_err(), ProtocolError::UnexpectedLineBreak);
    assert_eq!(UciOut::from_line("info depth 3\r").unwrap_err(), ProtocolError::UnexpectedLineBreak);
    assert_eq!(UciOut::from_line("info depth").unwrap_err(), ProtocolError::UnexpectedEndOfLine);
    assert_eq!(UciOut::from_line("bestmove zz").unwrap_err(), ProtocolError::InvalidMove);
    assert_eq!(UciOut::from_line("info depth x").unwrap_err(), ProtocolError::InvalidInteger);
    assert!(matches!(
        UciOut::from_line("info multipv 9").unwrap_err(),
        ProtocolError::InvalidMultipv(_)
    ));
    assert_eq!(UciOut::from_line("info score foo").unwrap_err(), ProtocolError::UnexpectedToken);
    assert_eq!(UciOut::from_line("info bogus 1").unwrap_err(), ProtocolError::UnexpectedToken);
}

#[test]
fn moves_stop_at_first_non_move() {
    let i = info("info pv e2e4 e7e5 depth 7");
    assert_eq!(i.pv, Some(vec![mv("e2e4"), mv("e7e5")]));
    assert_eq!(i.depth, Some(7));
}

#[test]
fn move_text_round_trips() {
    assert_eq!(mv("e7e8Q").to_text(), "e7e8q");
    assert_eq!(mv("Q@f7").to_text(), "Q@f7");
    assert_eq!(mv("0000").to_text(), "0000");
    assert_eq!(mv("e2e4").to_text(), "e2e4");
    assert!(UciMove::parse("depth").is_none());
    assert!(UciMove::parse("e9e4").is_none());
}

#[test]
fn display_parse_round_trip() {
    for line in [
        "info multipv 2 depth 12 seldepth 20 time 1500 nodes 9 score cp -23 lowerbound currmove g1f3 currmovenumber 4 hashfull 500 nps 99 tbhits 1 sbhits 2 cpuload 800 refutation d1h5 g6h5 currline 1 e2e4 pv e2e4 e7e5 string a  b",
        "info depth 10 score cp 23 pv e2e4 e7e5",
        "info",
        "bestmove e2e4 ponder e7e5",
        "bestmove (none)",
        "info nodes 18446744073709551615 score mate 2147483647",
    ] {
        let u = UciOut::from_line(line).unwrap().unwrap();
        let text = u.to_line();
        assert_eq!(text, line);
        let again = UciOut::from_line(&text).unwrap().unwrap();
        assert_eq!(format!("{:?}", again), format!("{:?}", u));
    }
}

#[test]
fn display_writes_canonical_form() {
    let u = UciOut::from_line("info  depth +5\tpv e7e8Q").unwrap().unwrap();
    assert_eq!(u.to_line(), "info depth 5 pv e7e8q");
    let again = UciOut::from_line(&u.to_line()).unwrap().unwrap();
    assert_eq!(format!("{:?}", again), format!("{:?}", u));
}
