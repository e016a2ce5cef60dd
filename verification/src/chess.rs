//! Chess rules, from `shakmaty`.
//!
//! A position is carried as its EPD text.  What a move does to a position
//! takes the whole of the rules of chess to state, so each trusted item
//! below names its result (a function of its arguments alone) instead of
//! stating it.

use vstd::prelude::*;
use shakmaty::{CastlingMode, Chess, EnPassantMode, Position};
use shakmaty::fen::{Epd, Fen};
use shakmaty::san::San;
use shakmaty::uci::UciMove;

verus! {

/// The EPD text of the initial position.
pub const START_EPD: &'static str = "rnbqkbnr/pppppppp/8/8/8/8/PPPPPPPP/RNBQKBNR w KQkq -";

/// The EPD text of the position reached by playing the SAN move `san` in
/// the position whose EPD (or FEN) text is `epd`; `None` when the text is
/// not a legal standard-chess position or the move is not legal there.
pub uninterp spec fn san_successor(epd: Seq<char>, san: Seq<char>) -> Option<Seq<char>>;

/// Plays a move given in SAN (`shakmaty::san::San::from_ascii`, then
/// `San::to_move` and `Position::play_unchecked` on the position that
/// `shakmaty::fen::Epd::from_ascii` reads from `epd`), and gives back the EPD
/// text of the result (`Epd::from_position` with `EnPassantMode::Legal`).
/// The contract only names the result: it equals `san_successor` of the
/// two texts.
#[verifier::external_body]
pub(crate) fn play_san(epd: &str, san: &str) -> (r: Option<String>)
    ensures
        r.is_some() == san_successor(epd@, san@).is_some(),
        r matches Some(s) ==> s@ == san_successor(epd@, san@).unwrap(),
{
    let pos: Chess = Epd::from_ascii(epd.as_bytes()).ok()?.into_position(CastlingMode::Standard).ok()?;
    let m = San::from_ascii(san.as_bytes()).ok()?.to_move(&pos).ok()?;
    let mut next = pos;
    next.play_unchecked(m);
    Some(Epd::from_position(&next, EnPassantMode::Legal).to_string())
}


/// Whether `fen` is the FEN (or EPD) text of a legal standard-chess
/// position.
pub uninterp spec fn is_position_text(fen: Seq<char>) -> bool;

/// Reads `fen` with `shakmaty::fen::Fen::from_ascii` and
/// `Fen::into_position` (standard castling) and tells whether both
/// succeed.  The contract only names the answer.
#[verifier::external_body]
pub(crate) fn position_text_ok(fen: &str) -> (r: bool)
    ensures
        r == is_position_text(fen@),
{
    match Fen::from_ascii(fen.as_bytes()) {
        Ok(f) => f.into_position::<Chess>(CastlingMode::Standard).is_ok(),
        Err(_) => false,
    }
}

/// The EPD text of the position reached by the UCI move `uci` from the
/// position whose FEN (or EPD) text is `fen`, with the move's SAN; `None`
/// when the text is not a legal position or the move is not legal there.
pub uninterp spec fn uci_successor(fen: Seq<char>, uci: Seq<char>) -> Option<(Seq<char>, Seq<char>)>;

/// Plays a move given in UCI notation (`shakmaty::uci::UciMove::from_ascii`
/// and `UciMove::to_move` on the position that `Fen::from_ascii` reads
/// from `fen`), and gives back the EPD text of the result
/// (`Epd::from_position`, `EnPassantMode::Legal`) with the move's SAN
/// (`San::from_move`).  The contract only names the result: it equals
/// `uci_successor` of the two texts.
#[verifier::external_body]
pub(crate) fn play_uci(fen: &str, uci: &str) -> (r: Option<(String, String)>)
    ensures
        r.is_some() == uci_successor(fen@, uci@).is_some(),
        r matches Some(p) ==> (p.0@, p.1@) == uci_successor(fen@, uci@).unwrap(),
{
    let pos: Chess = Fen::from_ascii(fen.as_bytes()).ok()?.into_position(CastlingMode::Standard).ok()?;
    let m = UciMove::from_ascii(uci.as_bytes()).ok()?.to_move(&pos).ok()?;
    let san = San::from_move(&pos, m.clone()).to_string();
    let mut next = pos;
    next.play_unchecked(m);
    Some((Epd::from_position(&next, EnPassantMode::Legal).to_string(), san))
}

} // verus!
