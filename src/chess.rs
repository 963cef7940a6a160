//! Moves and positions, with the chess rules delegated to shakmaty.
use vstd::prelude::*;
use vstd::string::StrSliceExecFns;
use crate::model::UciVariant;
use shakmaty::fen::Fen;
use shakmaty::uci::Uci;
use shakmaty::variant::{Variant, VariantPosition};
use shakmaty::{CastlingMode, EnPassantMode, Move, Position, Role, Square};

verus! {

/// A move in UCI notation, with squares numbered `0..64` (a1 = 0, h8 = 63)
/// and piece roles numbered `1..=6` (pawn to king).
#[derive(Debug, Clone, Copy, PartialEq, Eq, Structural, Hash)]
pub enum UciMove {
    /// A board move such as `e2e4` or `e7e8q`.
    Normal { from: u8, to: u8, promotion: Option<u8> },
    /// A piece drop such as `Q@f7`.
    Put { role: u8, to: u8 },
    /// The null move `0000`.
    Null,
}

pub open spec fn is_role(r: u8) -> bool {
    1 <= r <= 6
}

impl UciMove {
    /// Squares and roles are in range.
    pub open spec fn wf(self) -> bool {
        match self {
            UciMove::Normal { from, to, promotion } => from < 64 && to < 64 && (promotion matches Some(
                p,
            ) ==> is_role(p)),
            UciMove::Put { role, to } => is_role(role) && to < 64,
            UciMove::Null => true,
        }
    }
}

/// A character of a move in UCI notation.
pub open spec fn move_char(c: char) -> bool {
    ('a' <= c <= 'z') || ('A' <= c <= 'Z') || ('0' <= c <= '9') || c == '@'
}

/// A move in UCI notation has four or five characters.
pub open spec fn move_shape(t: Seq<char>) -> bool {
    t.len() == 4 || t.len() == 5
}

/// The move a token names: only tokens of move length are offered to shakmaty.
pub open spec fn move_of(t: Seq<char>) -> Option<UciMove> {
    if move_shape(t) {
        uci_of(t)
    } else {
        None
    }
}

impl UciMove {
    /// Reads a move in UCI notation.
    pub fn parse(t: &str) -> (r: Option<UciMove>)
        ensures
            r == move_of(t@),
            r matches Some(m) ==> m.wf(),
    {
        let n = t.unicode_len();
        if n != 4 && n != 5 {
            return None;
        }
        parse_uci(t)
    }

    /// The move in UCI notation.
    pub fn to_text(&self) -> (r: String)
        requires
            self.wf(),
        ensures
            r@ == uci_text(*self),
    {
        uci_to_string(self)
    }
}

/// What shakmaty reads from a token in UCI notation.
pub uninterp spec fn uci_of(t: Seq<char>) -> Option<UciMove>;

/// How shakmaty writes a move in UCI notation.
pub uninterp spec fn uci_text(m: UciMove) -> Seq<char>;

/// Relies on `shakmaty::uci::Uci::from_ascii`: the move a token names, if any.
#[verifier::external_body]
pub(crate) fn parse_uci(t: &str) -> (r: Option<UciMove>)
    ensures
        r == uci_of(t@),
        r matches Some(m) ==> m.wf(),
{
    match Uci::from_ascii(t.as_bytes()) {
        Ok(Uci::Normal { from, to, promotion }) => Some(UciMove::Normal {
            from: u8::from(from),
            to: u8::from(to),
            promotion: promotion.map(u8::from),
        }),
        Ok(Uci::Put { role, to }) => Some(UciMove::Put { role: u8::from(role), to: u8::from(to) }),
        Ok(Uci::Null) => Some(UciMove::Null),
        Err(_) => None,
    }
}

/// Relies on shakmaty's `Display for Uci`, which writes two squares and a
/// lowercase promotion role, an uppercase role, `@` and a square, or `0000`:
/// four or five letters, digits or `@`, which `Uci::from_ascii` reads back
/// to the same move.
#[verifier::external_body]
pub(crate) fn uci_to_string(m: &UciMove) -> (r: String)
    requires
        m.wf(),
    ensures
        r@ == uci_text(*m),
        r@.len() == 4 || r@.len() == 5,
        forall|k: int| 0 <= k < r@.len() ==> move_char(#[trigger] r@[k]),
        (exists|t: Seq<char>| uci_of(t) == Some(*m)) ==> uci_of(r@) == Some(*m),
{
    let uci = match *m {
        UciMove::Normal { from, to, promotion } => Uci::Normal {
            from: Square::new(u32::from(from)),
            to: Square::new(u32::from(to)),
            promotion: promotion.map(Role::try_from).and_then(Result::ok),
        },
        UciMove::Put { role, to } => Uci::Put {
            role: Role::try_from(role).unwrap_or(Role::Pawn),
            to: Square::new(u32::from(to)),
        },
        UciMove::Null => Uci::Null,
    };
    uci.to_string()
}

#[verifier::external_type_specification]
#[verifier::external_body]
pub struct ExVariantPosition(VariantPosition);

#[verifier::external_type_specification]
#[verifier::external_body]
pub struct ExFen(Fen);

#[verifier::external_type_specification]
#[verifier::external_body]
pub struct ExMove(Move);

/// What `Fen::from_ascii` reads from a text.
pub uninterp spec fn fen_parse_of(text: Seq<char>) -> Option<Fen>;

/// What `VariantPosition::from_setup` makes of a FEN under Chess960 castling.
pub uninterp spec fn setup_of(variant: UciVariant, fen: Fen) -> Option<VariantPosition>;

/// The FEN that `Fen::from_position` writes, with legal en passant squares only.
pub uninterp spec fn fen_of(pos: VariantPosition) -> Seq<char>;

/// The legal move that `Uci::to_move` finds for a UCI move in a position.
pub uninterp spec fn legal_of(pos: VariantPosition, m: UciMove) -> Option<Move>;

/// The Chess960 UCI notation that `Move::to_uci` gives a move.
pub uninterp spec fn chess960_of(mv: Move) -> UciMove;

/// The position after `Position::play_unchecked` plays a move.
pub uninterp spec fn played_of(pos: VariantPosition, mv: Move) -> VariantPosition;

/// Whether `Position::turn` is White.
pub uninterp spec fn white_of(pos: VariantPosition) -> bool;

/// The position a FEN text stands for in a variant, if it is legal there.
pub open spec fn position_of(variant: UciVariant, text: Seq<char>) -> Option<VariantPosition> {
    match fen_parse_of(text) {
        Some(fen) => setup_of(variant, fen),
        None => None,
    }
}

/// Playing a UCI move: its Chess960 notation and the position after it, or
/// `None` where it is not legal.
pub open spec fn play_of(pos: VariantPosition, m: UciMove) -> Option<(UciMove, VariantPosition)> {
    match legal_of(pos, m) {
        Some(mv) => Some((chess960_of(mv), played_of(pos, mv))),
        None => None,
    }
}

/// Relies on `shakmaty::fen::Fen::from_ascii`; `None` where the text is no FEN.
#[verifier::external_body]
pub(crate) fn parse_fen(fen: &str) -> (r: Option<Fen>)
    ensures
        r == fen_parse_of(fen@),
{
    Fen::from_ascii(fen.as_bytes()).ok()
}

/// Relies on `shakmaty::variant::VariantPosition::from_setup` under Chess960
/// castling; `None` where the setup is not a legal position of the variant.
#[verifier::external_body]
pub(crate) fn setup_position(variant: UciVariant, fen: Fen) -> (r: Option<VariantPosition>)
    ensures
        r == setup_of(variant, fen),
{
    let variant = match variant {
        UciVariant::Chess => Variant::Chess,
        UciVariant::Antichess => Variant::Antichess,
        UciVariant::Atomic => Variant::Atomic,
        UciVariant::Crazyhouse => Variant::Crazyhouse,
        UciVariant::Horde => Variant::Horde,
        UciVariant::KingOfTheHill => Variant::KingOfTheHill,
        UciVariant::RacingKings => Variant::RacingKings,
        UciVariant::ThreeCheck => Variant::ThreeCheck,
    };
    VariantPosition::from_setup(variant, fen.0, CastlingMode::Chess960).ok()
}

/// Relies on `shakmaty::fen::Fen::from_position` with only legal en passant
/// squares kept, written out by `Display for Fen`.
#[verifier::external_body]
pub(crate) fn legal_fen(pos: &VariantPosition) -> (r: String)
    ensures
        r@ == fen_of(*pos),
{
    Fen::from_position(pos.clone(), EnPassantMode::Legal).to_string()
}

/// Relies on `shakmaty::uci::Uci::to_move`: the legal move that the UCI names
/// in this position, if any.
#[verifier::external_body]
pub(crate) fn legal_move(pos: &VariantPosition, m: &UciMove) -> (r: Option<Move>)
    requires
        m.wf(),
    ensures
        r == legal_of(*pos, *m),
{
    let uci = match *m {
        UciMove::Normal { from, to, promotion } => Uci::Normal {
            from: Square::new(u32::from(from)),
            to: Square::new(u32::from(to)),
            promotion: promotion.map(Role::try_from).and_then(Result::ok),
        },
        UciMove::Put { role, to } => Uci::Put {
            role: Role::try_from(role).unwrap_or(Role::Pawn),
            to: Square::new(u32::from(to)),
        },
        UciMove::Null => Uci::Null,
    };
    uci.to_move(pos).ok()
}

/// Relies on `shakmaty::Move::to_uci` in Chess960 mode (castling written as
/// king takes rook): two squares, a role and a square, or the null move.
#[verifier::external_body]
pub(crate) fn chess960_uci(m: &Move) -> (r: UciMove)
    ensures
        r == chess960_of(*m),
        r.wf(),
{
    match m.to_uci(CastlingMode::Chess960) {
        Uci::Normal { from, to, promotion } => UciMove::Normal {
            from: u8::from(from),
            to: u8::from(to),
            promotion: promotion.map(u8::from),
        },
        Uci::Put { role, to } => UciMove::Put { role: u8::from(role), to: u8::from(to) },
        Uci::Null => UciMove::Null,
    }
}

/// Relies on `shakmaty::Position::play_unchecked`, which is safe for a move
/// that `Uci::to_move` returned as legal in this very position.
#[verifier::external_body]
pub(crate) fn play(pos: &mut VariantPosition, m: &Move)
    requires
        exists|u: UciMove| legal_of(*old(pos), u) == Some(*m),
    ensures
        *final(pos) == played_of(*old(pos), *m),
{
    pos.play_unchecked(m)
}

/// Relies on `shakmaty::Position::turn`: whether White is to move.
#[verifier::external_body]
pub(crate) fn white_to_move(pos: &VariantPosition) -> (r: bool)
    ensures
        r == white_of(*pos),
{
    pos.turn().is_white()
}

/// Relies on `Clone for VariantPosition`, which copies the position.
#[verifier::external_body]
pub(crate) fn copy_position(pos: &VariantPosition) -> (r: VariantPosition)
    ensures
        r == *pos,
{
    pos.clone()
}

/// Plays a UCI move if it is legal: its Chess960 notation, with the
/// position advanced; the position stays as it was otherwise.
pub fn play_uci(pos: &mut VariantPosition, m: &UciMove) -> (r: Option<UciMove>)
    requires
        m.wf(),
    ensures
        match play_of(*old(pos), *m) {
            Some((u, p)) => r == Some(u) && *final(pos) == p,
            None => r is None && *final(pos) == *old(pos),
        },
        r matches Some(u) ==> u.wf(),
{
    match legal_move(pos, m) {
        Some(mv) => {
            let u = chess960_uci(&mv);
            play(pos, &mv);
            Some(u)
        },
        None => None,
    }
}

} // verus!
