//! Analysis of the dice game "mitraillette": which scoring combinations a roll
//! offers, how often each set of offers comes up, and what a turn is worth to
//! a player who stops or rerolls so as to maximise the expected gain.

use vstd::prelude::*;

pub mod choix;
pub mod combinaison;
pub mod exactitude;
pub mod solveur;
pub mod stats;

use crate::combinaison::VALEUR_MIN_DE;
use crate::combinaison::Valeur;

verus! {

/// Number of dice of a full hand.
pub const NB_DES_TOT: usize = 6;

/// Number of faces of a die.
pub const NB_FACES: usize = 6;

/// The score that ends the game. It has to be reached exactly.
pub const SCORE_MAX: Valeur = 10000;

/// A player cannot be about to roll `nb_des` dice with `score` points banked
/// and `mise` points at stake: the game is over, or the dice that left the
/// hand, each worth fifty points at least, brought more than is at stake.
/// With a full hand the turn begins, with nothing at stake, or six dice
/// were taken.
pub open spec fn jet_exclu(score: int, nb_des: int, mise: int) -> bool {
    ||| score + mise >= SCORE_MAX
    ||| nb_des < NB_DES_TOT && mise < (NB_DES_TOT - nb_des) * VALEUR_MIN_DE
    ||| nb_des >= NB_DES_TOT && 0 < mise < NB_DES_TOT * VALEUR_MIN_DE
}

/// Whether no game leads to a roll of `nb_des` dice with `score` points
/// banked and `mise` points at stake.
pub fn jet_impossible(score: Valeur, nb_des: usize, mise: Valeur) -> (r: bool)
    ensures
        r == jet_exclu(score as int, nb_des as int, mise as int),
{
    let valeur_min: usize = VALEUR_MIN_DE as usize;
    score as u32 + mise as u32 >= SCORE_MAX as u32 || if nb_des < NB_DES_TOT {
        // Each die that left the hand brought fifty points at least.
        (mise as usize) < (NB_DES_TOT - nb_des) * valeur_min
    } else {
        // With every die in hand, the turn begins or six dice were taken.
        mise > 0 && (mise as usize) < NB_DES_TOT * valeur_min
    }
}

} // verus!
