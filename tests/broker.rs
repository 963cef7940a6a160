use lila_engine::chess::{play_uci, UciMove};
use lila_engine::emit::{oriented, Emit, Next};
use lila_engine::hub::{shard_of, Hub, IsValid, Queue, HUB_SHARDS, MAX_ITEMS};
use lila_engine::ids::{xor_fold, ClientSecret, EngineId, JobId, ProviderSecret, SessionId, UserId};
use lila_engine::model::{LichessVariant, MultiPv, UciVariant};
use lila_engine::ongoing::Ongoing;
use lila_engine::uci::{Eval, UciOut};
use lila_engine::work::{Engine, EngineConfig, InvalidWorkError, Search, Work};
use sha2::{Digest, Sha256};

const STARTPOS: &str = "rnbqkbnr/pppppppp/8/8/8/8/PPPPPPPP/RNBQKBNR w KQkq - 0 1";

#[derive(Debug, PartialEq)]
struct Job {
    n: u32,
    alive: bool,
}

impl IsValid for Job {
    fn valid(&self) -> bool {
        self.alive
    }

    fn is_valid(&self) -> bool {
        self.valid()
    }
}

fn job(n: u32) -> Job {
    Job { n, alive: true }
}

fn engine(variants: Vec<UciVariant>) -> Engine {
    Engine {
        id: EngineId("E1".to_string()),
        config: EngineConfig {
            name: "engine".to_string(),
            client_secret: ClientSecret("cs".to_string()),
            user_id: UserId("u".to_string()),
            max_threads: 2,
            max_hash: 16,
            default_depth: None,
            variants,
            provider_data: None,
        },
    }
}

fn work(variant: UciVariant, fen: &str, moves: &[&str], multi_pv: u32) -> Work {
    Work {
        session_id: SessionId("s".to_string()),
        threads: 4,
        hash: 32,
        search: Search::Depth(10),
        multi_pv: MultiPv::try_from(multi_pv).unwrap(),
        variant,
        initial_fen: fen.to_string(),
        moves: moves.iter().map(|m| UciMove::parse(m).unwrap()).collect(),
    }
}

fn line(s: &str) -> UciOut {
    UciOut::from_line(s).unwrap().unwrap()
}

fn texts(moves: &[UciMove]) -> Vec<String> {
    moves.iter().map(|m| m.to_text()).collect()
}

#[test]
fn multi_pv_bounds() {
    assert!(MultiPv::try_from(0).is_err());
    for n in 1..=5 {
        assert_eq!(MultiPv::try_from(n).unwrap().get(), n);
    }
    assert!(MultiPv::try_from(6).is_err());
    assert_eq!(MultiPv::default().get(), 1);
}

#[test]
fn happy_path() {
    let e = engine(vec![UciVariant::Chess]);
    let (w, pos) = work(UciVariant::Chess, STARTPOS, &[], 1).sanitize(&e).unwrap();
    assert_eq!(w.threads, 2);
    assert_eq!(w.hash, 16);
    assert_eq!(w.initial_fen, STARTPOS);

    let selector = ProviderSecret("ps".to_string()).selector();
    let mut hub: Hub<Job> = Hub::new();
    assert!(hub.submit(selector.clone(), job(1)));
    assert_eq!(hub.acquire(&ProviderSecret("ps".to_string()).selector()), Some(job(1)));

    let mut emit = Emit::default();
    let info = line("info depth 10 score cp 23 pv e2e4 e7e5");
    emit.update(&info, &pos);
    assert!(emit.should_emit());
    assert_eq!(emit.depth, 10);
    assert_eq!(emit.pvs.len(), 1);
    let pv = emit.pvs[0].as_ref().unwrap();
    assert_eq!(texts(&pv.moves), vec!["e2e4", "e7e5"]);
    assert_eq!(pv.eval, Eval::Cp(23));
    assert_eq!(pv.depth, 10);
}

#[test]
fn wrong_client_secret() {
    let e = engine(vec![UciVariant::Chess]);
    assert!(e.config.client_secret == ClientSecret("cs".to_string()));
    assert!(e.config.client_secret != ClientSecret("nope".to_string()));
    assert!(ClientSecret("cs".to_string()) != ClientSecret("cz".to_string()));
    assert!(ClientSecret("cs".to_string()) != ClientSecret("c".to_string()));
    assert!(ClientSecret("".to_string()) == ClientSecret("".to_string()));
}

#[test]
fn unsupported_variant() {
    let e = engine(vec![UciVariant::Chess]);
    let r = work(UciVariant::Horde, STARTPOS, &[], 1).sanitize(&e);
    assert_eq!(r.err(), Some(InvalidWorkError::UnsupportedVariant));
}

#[test]
fn invalid_work_errors() {
    let e = engine(vec![UciVariant::Chess]);
    assert_eq!(
        work(UciVariant::Chess, "not a fen", &[], 1).sanitize(&e).err(),
        Some(InvalidWorkError::Position)
    );
    assert_eq!(
        work(UciVariant::Chess, STARTPOS, &["e2e5"], 1).sanitize(&e).err(),
        Some(InvalidWorkError::IllegalUci)
    );
}

fn shuffle(n: usize) -> Vec<&'static str> {
    ["g1f3", "g8f6", "f3g1", "f6g8"].iter().cycle().take(n).copied().collect()
}

#[test]
fn move_count_limit() {
    let e = engine(vec![UciVariant::Chess]);
    let ok = work(UciVariant::Chess, STARTPOS, &shuffle(600), 1).sanitize(&e);
    assert_eq!(ok.unwrap().0.moves.len(), 600);
    let too_many = work(UciVariant::Chess, STARTPOS, &shuffle(601), 1).sanitize(&e);
    assert_eq!(too_many.err(), Some(InvalidWorkError::TooManyMoves));
}

#[test]
fn sanitize_is_idempotent() {
    let e = engine(vec![UciVariant::Chess]);
    let fen = "rnbqkbnr/pppppppp/8/8/4P3/8/PPPP1PPP/RNBQKBNR b KQkq e3 0 1";
    let (w1, _) = work(UciVariant::Chess, fen, &["e7e5", "g1f3"], 1).sanitize(&e).unwrap();
    assert_eq!(w1.initial_fen, "rnbqkbnr/pppppppp/8/8/4P3/8/PPPP1PPP/RNBQKBNR b KQkq - 0 1");
    let (w2, _) = w1.clone().sanitize(&e).unwrap();
    assert_eq!(format!("{:?}", w1), format!("{:?}", w2));
}

#[test]
fn castling_is_rewritten_chess960() {
    let e = engine(vec![UciVariant::Chess]);
    let fen = "r3k2r/8/8/8/8/8/8/R3K2R w KQkq - 0 1";
    let (w, _) = work(UciVariant::Chess, fen, &["e1g1"], 1).sanitize(&e).unwrap();
    assert_eq!(texts(&w.moves), vec!["e1h1"]);
}

#[test]
fn multi_pv_coalescing() {
    let e = engine(vec![UciVariant::Chess]);
    let (w, pos) = work(UciVariant::Chess, STARTPOS, &[], 2).sanitize(&e).unwrap();
    let mut emit = Emit::with_slots(w.multi_pv);
    let mut sent = Vec::new();
    for l in [
        "info multipv 1 depth 12 score cp 10 pv a2a3",
        "info multipv 2 depth 12 score cp -5 pv b2b3",
        "bestmove a2a3",
    ] {
        match emit.on_line(l, &pos).unwrap() {
            Next::Send => sent.push(emit.clone()),
            Next::Stop => break,
            _ => {
                assert_eq!(emit.pvs.len(), 2);
                assert!(emit.pvs[0].is_some());
                assert!(emit.pvs[1].is_none());
            }
        }
    }
    assert_eq!(sent.len(), 1);
    assert_eq!(sent[0].pvs.len(), 2);
    assert!(sent[0].pvs.iter().all(|p| p.is_some()));
    assert_eq!(sent[0].pvs[1].as_ref().unwrap().eval, Eval::Cp(-5));
}

#[test]
fn first_line_waits_for_second_slot() {
    let e = engine(vec![UciVariant::Chess]);
    let (_, pos) = work(UciVariant::Chess, STARTPOS, &[], 2).sanitize(&e).unwrap();
    let mut emit = Emit::default();
    emit.update(&line("info multipv 2 depth 12 score cp -5 pv b2b3"), &pos);
    assert_eq!(emit.pvs.len(), 2);
    assert!(emit.pvs[0].is_none());
    assert!(!emit.should_emit());
    emit.update(&line("info multipv 1 depth 13 score cp 10 pv a2a3"), &pos);
    assert!(emit.pvs[1].is_none());
    assert!(!emit.should_emit());
    emit.update(&line("info multipv 2 depth 11 score cp -5 pv b2b3"), &pos);
    assert!(emit.should_emit());
    assert_eq!(emit.depth, 11);
}

#[test]
fn bounds_are_not_shown_on_first_line() {
    let e = engine(vec![UciVariant::Chess]);
    let (_, pos) = work(UciVariant::Chess, STARTPOS, &[], 1).sanitize(&e).unwrap();
    let mut emit = Emit::default();
    emit.update(&line("info depth 5 score cp 10 lowerbound pv e2e4"), &pos);
    assert!(!emit.should_emit());
    emit.update(&line("info depth 5 score cp 10 upperbound pv e2e4"), &pos);
    assert!(!emit.should_emit());
    assert!(!Emit::default().should_emit());
}

#[test]
fn eval_is_from_white() {
    let e = engine(vec![UciVariant::Chess]);
    let fen = "rnbqkbnr/pppppppp/8/8/4P3/8/PPPP1PPP/RNBQKBNR b KQkq - 0 1";
    let (_, pos) = work(UciVariant::Chess, fen, &[], 1).sanitize(&e).unwrap();
    let mut emit = Emit::default();
    emit.update(&line("info depth 5 score cp 30 pv e7e5 e7e5"), &pos);
    let pv = emit.pvs[0].as_ref().unwrap();
    assert_eq!(pv.eval, Eval::Cp(-30));
    assert_eq!(texts(&pv.moves), vec!["e7e5"]);
    assert_eq!(oriented(Eval::Mate(3), false), Eval::Mate(-3));
    assert_eq!(oriented(Eval::Mate(3), true), Eval::Mate(3));
    assert_eq!(oriented(Eval::Cp(i64::MIN), false), Eval::Cp(i64::MAX));
}

#[test]
fn pv_stops_at_illegal_move_and_caps_length() {
    let e = engine(vec![UciVariant::Chess]);
    let (_, pos) = work(UciVariant::Chess, STARTPOS, &[], 1).sanitize(&e).unwrap();
    let mut emit = Emit::default();
    emit.update(&line("info depth 5 score cp 1 pv e2e4 e2e4 e7e5"), &pos);
    assert_eq!(texts(&emit.pvs[0].as_ref().unwrap().moves), vec!["e2e4"]);
    let long = format!("info depth 5 score cp 1 pv {}", shuffle(40).join(" "));
    emit.update(&line(&long), &pos);
    assert_eq!(emit.pvs[0].as_ref().unwrap().moves.len(), 30);
}

#[test]
fn selector_is_sha256_hex() {
    let a = ProviderSecret("ps".to_string()).selector();
    let b = ProviderSecret("ps".to_string()).selector();
    assert!(a == b);
    let expected = hex::encode(Sha256::digest(b"providerSecret:ps"));
    assert_eq!(a.0, expected);
    assert_eq!(a.0.len(), 64);
    assert!(a != ProviderSecret("pt".to_string()).selector());
}

#[test]
fn job_ids_are_random_alphanumerics() {
    let a = JobId::random();
    let b = JobId::random();
    assert_eq!(a.0.len(), 16);
    assert!(a.0.chars().all(|c| c.is_ascii_alphanumeric()));
    assert!(a != b);
}

#[test]
fn hub_is_fifo() {
    let sel = ProviderSecret("ps".to_string()).selector();
    let other = ProviderSecret("other".to_string()).selector();
    let mut hub: Hub<Job> = Hub::new();
    for n in 1..=3 {
        assert!(hub.submit(sel.clone(), job(n)));
    }
    assert!(hub.submit(other.clone(), job(9)));
    for n in 1..=3 {
        assert_eq!(hub.acquire(&sel), Some(job(n)));
    }
    assert_eq!(hub.acquire(&sel), None);
    assert_eq!(hub.acquire(&other), Some(job(9)));
}

#[test]
fn hub_skips_invalid_jobs() {
    let sel = ProviderSecret("ps".to_string()).selector();
    let mut hub: Hub<Job> = Hub::new();
    hub.submit(sel.clone(), Job { n: 1, alive: false });
    hub.submit(sel.clone(), job(2));
    hub.submit(sel.clone(), Job { n: 3, alive: false });
    assert_eq!(hub.acquire(&sel), Some(job(2)));
    assert_eq!(hub.acquire(&sel), None);
}

#[test]
fn hub_capacity() {
    let sel = ProviderSecret("ps".to_string()).selector();
    let mut hub: Hub<Job> = Hub::new();
    for n in 0..MAX_ITEMS as u32 {
        assert!(hub.submit(sel.clone(), job(n)));
    }
    assert!(!hub.submit(sel.clone(), job(5000)));
    for n in 0..MAX_ITEMS as u32 {
        assert_eq!(hub.acquire(&sel), Some(job(n)));
    }
    assert_eq!(hub.acquire(&sel), None);
}

#[test]
fn submit_then_acquire_leaves_queue_empty() {
    let sel = ProviderSecret("ps".to_string()).selector();
    let mut hub: Hub<Job> = Hub::new();
    assert_eq!(hub.acquire(&sel), None);
    hub.submit(sel.clone(), job(7));
    assert_eq!(hub.acquire(&sel), Some(job(7)));
    assert_eq!(hub.acquire(&sel), None);
}

#[test]
fn hub_garbage_collect() {
    let sel = ProviderSecret("ps".to_string()).selector();
    let mut hub: Hub<Job> = Hub::new();
    hub.submit(sel.clone(), Job { n: 1, alive: false });
    hub.submit(sel.clone(), job(2));
    hub.garbage_collect();
    assert_eq!(hub.acquire(&sel), Some(job(2)));
    let mut q: Queue<Job> = Queue::new();
    q.submit(Job { n: 1, alive: false });
    q.submit(job(2));
    q.garbage_collect();
    assert_eq!(q.len(), 1);
}

#[test]
fn ongoing_add_remove() {
    let mut ongoing: Ongoing<Job> = Ongoing::new();
    let id = JobId("abc".to_string());
    ongoing.add(id.clone(), job(1));
    ongoing.add(JobId("def".to_string()), job(2));
    assert_eq!(ongoing.remove(&id), Some(job(1)));
    assert_eq!(ongoing.remove(&id), None);
    assert_eq!(ongoing.remove(&JobId("def".to_string())), Some(job(2)));
}

#[test]
fn submit_after_gc_finds_nothing() {
    let mut ongoing: Ongoing<Job> = Ongoing::new();
    let id = JobId("abc".to_string());
    ongoing.add(id.clone(), Job { n: 1, alive: false });
    ongoing.add(JobId("def".to_string()), job(2));
    ongoing.garbage_collect();
    assert_eq!(ongoing.remove(&id), None);
    assert_eq!(ongoing.remove(&JobId("def".to_string())), Some(job(2)));
}

#[test]
fn lichess_variants_map_onto_uci_variants() {
    assert_eq!(UciVariant::from(LichessVariant::Chess960), UciVariant::Chess);
    assert_eq!(UciVariant::from(LichessVariant::FromPosition), UciVariant::Chess);
    assert_eq!(UciVariant::from(LichessVariant::ThreeCheck), UciVariant::ThreeCheck);
    assert_eq!(LichessVariant::from(UciVariant::Chess), LichessVariant::Standard);
}

#[test]
fn stream_of_lines() {
    let e = engine(vec![UciVariant::Chess]);
    let (_, pos) = work(UciVariant::Chess, STARTPOS, &[], 2).sanitize(&e).unwrap();
    let mut emit = Emit::default();
    assert_eq!(emit.on_line("Stockfish 16 by the Stockfish developers", &pos), Ok(Next::Ignore));
    assert_eq!(
        emit.on_line("info multipv 1 depth 12 score cp 10 pv a2a3", &pos),
        Ok(Next::Send)
    );
    assert_eq!(
        emit.on_line("info multipv 2 depth 12 score cp -5 pv b2b3", &pos),
        Ok(Next::Send)
    );
    assert_eq!(emit.pvs.len(), 2);
    assert_eq!(
        emit.on_line("info multipv 1 depth 13 score cp 12 pv a2a3", &pos),
        Ok(Next::Continue)
    );
    assert!(emit.on_line("info depth", &pos).is_err());
    assert_eq!(emit.depth, 13);
    assert_eq!(emit.on_line("bestmove a2a3", &pos), Ok(Next::Stop));
}

#[test]
fn happy_path_stream() {
    let e = engine(vec![UciVariant::Chess]);
    let (w, pos) = work(UciVariant::Chess, STARTPOS, &[], 1).sanitize(&e).unwrap();
    let mut emit = Emit::with_slots(w.multi_pv);
    assert_eq!(emit.pvs.len(), 1);
    assert!(!emit.should_emit());
    let mut sent = Vec::new();
    for l in ["info depth 10 score cp 23 pv e2e4 e7e5", "bestmove e2e4"] {
        match emit.on_line(l, &pos).unwrap() {
            Next::Send => sent.push(emit.clone()),
            Next::Stop => break,
            _ => {}
        }
    }
    assert_eq!(sent.len(), 1);
    assert_eq!(sent[0].depth, 10);
    let pv = sent[0].pvs[0].as_ref().unwrap();
    assert_eq!(texts(&pv.moves), vec!["e2e4", "e7e5"]);
    assert_eq!(pv.eval, Eval::Cp(23));
}

#[test]
fn variant_names() {
    for (name, v) in [
        ("chess", UciVariant::Chess),
        ("standard", UciVariant::Chess),
        ("chess960", UciVariant::Chess),
        ("fromPosition", UciVariant::Chess),
        ("antichess", UciVariant::Antichess),
        ("atomic", UciVariant::Atomic),
        ("crazyhouse", UciVariant::Crazyhouse),
        ("horde", UciVariant::Horde),
        ("kingofthehill", UciVariant::KingOfTheHill),
        ("kingOfTheHill", UciVariant::KingOfTheHill),
        ("racingkings", UciVariant::RacingKings),
        ("racingKings", UciVariant::RacingKings),
        ("3check", UciVariant::ThreeCheck),
        ("threeCheck", UciVariant::ThreeCheck),
    ] {
        assert_eq!(UciVariant::parse(name), Some(v));
        assert_eq!(UciVariant::parse(v.name()), Some(v));
    }
    assert_eq!(UciVariant::parse("Chess"), None);
    assert_eq!(UciVariant::parse(""), None);
    assert_eq!(UciVariant::ThreeCheck.name(), "3check");
}

#[test]
fn comparison_examines_every_byte() {
    for (a, b) in [("abcd", "abcd"), ("abcd", "xbcd"), ("abcd", "abcx"), ("", "")] {
        let (diff, examined) = xor_fold(a.as_bytes(), b.as_bytes());
        assert_eq!(examined, a.len());
        assert_eq!(diff == 0, a == b);
    }
}

#[test]
fn acquire_on_empty_selector_finds_nothing() {
    let mut hub: Hub<Job> = Hub::new();
    assert_eq!(hub.acquire(&ProviderSecret("nobody".to_string()).selector()), None);
}

#[test]
fn shards_spread_by_hash() {
    assert_eq!(shard_of(0, HUB_SHARDS), 0);
    assert_eq!(shard_of(65, HUB_SHARDS), 1);
    assert_eq!(shard_of(u64::MAX, HUB_SHARDS), 63);
    assert_eq!(shard_of(300, 128), 44);
}

#[test]
fn compare_counts_examined_bytes() {
    let a = ClientSecret("secret".to_string());
    assert_eq!(a.compare(&ClientSecret("secret".to_string())), (true, 6));
    assert_eq!(a.compare(&ClientSecret("xecret".to_string())), (false, 6));
    assert_eq!(a.compare(&ClientSecret("secrex".to_string())), (false, 6));
    assert_eq!(a.compare(&ClientSecret("secrets".to_string())), (false, 0));
}

#[test]
fn play_uci_plays_legal_moves_only() {
    let e = engine(vec![UciVariant::Chess]);
    let (_, mut pos) = work(UciVariant::Chess, "r3k2r/8/8/8/8/8/8/R3K2R w KQkq - 0 1", &[], 1)
        .sanitize(&e)
        .unwrap();
    assert_eq!(play_uci(&mut pos, &UciMove::parse("e1e3").unwrap()), None);
    let castle = play_uci(&mut pos, &UciMove::parse("e1g1").unwrap()).unwrap();
    assert_eq!(castle.to_text(), "e1h1");
    assert_eq!(play_uci(&mut pos, &UciMove::parse("e1g1").unwrap()), None);
}
