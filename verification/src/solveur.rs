//! What a turn is worth: for a score, a stake and a number of dice in hand,
//! the expected stake, or the chance of ending the game, of a player who
//! after each roll stops or rerolls so as to make it as large as possible.
//!
//! Expectations and chances are counted in whole parts of a point, or of a
//! certainty: an amount `v` stands for `v / ECHELLE`, and what does not make
//! a whole part is dropped each time a mean is taken over the rolls.

use vstd::prelude::*;
use std::collections::HashMap;
use crate::SCORE_MAX;
use crate::choix::nb_jets;
use crate::combinaison::Valeur;
use crate::stats::jet_bien_forme;
use crate::stats::lemma_total_gagnants_positif;
use crate::stats::lemma_total_gagnants_prefixe;
use crate::stats::lemma_total_gagnants_suivant;
use crate::stats::tables_bien_formees;
use crate::stats::total_gagnants;
use crate::stats::Possibilite;
use crate::stats::StatsChoix;
use crate::stats::StatsJet;

verus! {

broadcast use vstd::std_specs::hash::group_hash_axioms;

/// The number of parts into which a point, or a certainty, is cut: six to
/// the power twelve.
pub const ECHELLE: u64 = 2_176_782_336;

/// What the player makes as large as possible.
#[derive(Clone, Copy, Debug, PartialEq, Eq, Structural)]
pub enum Objectif {
    /// The stake in hand when the turn ends.
    Gain,
    /// The chance that the turn ends the game, the score being reached exactly.
    Fin,
}

/// The largest amount that can come out for an objective: the whole of the
/// score that ends the game, or certainty.
pub open spec fn plafond(objectif: Objectif) -> int {
    match objectif {
        Objectif::Gain => SCORE_MAX * ECHELLE,
        Objectif::Fin => ECHELLE as int,
    }
}

/// What stopping is worth after a roll, the dearest combination on offer
/// being worth `valeur_max`. The player may stop only if that combination
/// does not take the score past the end of the game: then the stake with
/// that combination is gained, and the game ends if the score is reached
/// exactly. Otherwise stopping is worth nothing.
pub open spec fn arret(objectif: Objectif, score: int, mise: int, valeur_max: int) -> int {
    match objectif {
        Objectif::Gain => if score + mise + valeur_max <= SCORE_MAX {
            (mise + valeur_max) * ECHELLE
        } else {
            0
        },
        Objectif::Fin => if score + mise + valeur_max == SCORE_MAX {
            ECHELLE as int
        } else {
            0
        },
    }
}

/// The larger of two amounts.
pub open spec fn le_plus_grand(a: int, b: int) -> int {
    if a >= b {
        a
    } else {
        b
    }
}

/// What a roll of `nb_des` dice is worth before it is made, to a player with
/// `score` points banked and `mise` points at stake who may roll again up
/// to `relances` times after it: the worth of each choice, weighted by the
/// number of rolls that offer it, over the number of rolls in all, rounded
/// down. A lost roll is worth nothing.
pub open spec fn valeur_bornee(
    tables: Seq<StatsJet>,
    objectif: Objectif,
    score: int,
    nb_des: int,
    mise: int,
    relances: nat,
) -> int
    decreases relances, 3int, 0int,
{
    somme_des_choix(
        tables,
        objectif,
        score,
        nb_des,
        mise,
        relances,
        tables[nb_des - 1].stats_choix@.len(),
    ) / (nb_jets(nb_des as nat) as int)
}

/// The worths of the first `nb_choix` choices of the table of `nb_des` dice,
/// each times the number of rolls that offer it, added up.
pub open spec fn somme_des_choix(
    tables: Seq<StatsJet>,
    objectif: Objectif,
    score: int,
    nb_des: int,
    mise: int,
    relances: nat,
    nb_choix: nat,
) -> int
    decreases relances, 2int, nb_choix,
{
    if nb_choix == 0 {
        0
    } else {
        let stats_choix = tables[nb_des - 1].stats_choix@[nb_choix - 1];
        somme_des_choix(tables, objectif, score, nb_des, mise, relances, (nb_choix - 1) as nat)
            + stats_choix.nb_jets * valeur_du_choix(
            tables,
            objectif,
            score,
            mise,
            stats_choix,
            relances,
        )
    }
}

/// What a choice is worth to the player who makes the best of it: stopping,
/// or, while rerolls are left, taking one of the combinations and rolling
/// again, whichever is worth most.
pub open spec fn valeur_du_choix(
    tables: Seq<StatsJet>,
    objectif: Objectif,
    score: int,
    mise: int,
    stats_choix: StatsChoix,
    relances: nat,
) -> int
    decreases relances, 1int, 0int,
{
    let arret = arret(objectif, score, mise, stats_choix.valeur_max as int);
    if relances == 0 {
        arret
    } else {
        le_plus_grand(
            arret,
            meilleure_relance(
                tables,
                objectif,
                score,
                mise,
                stats_choix.choix@,
                relances,
                stats_choix.choix@.len(),
            ),
        )
    }
}

/// The most that taking one of the first `nb_poss` combinations and rolling
/// again is worth, one reroll being spent. A combination that takes the
/// score to the end of the game or past it allows no reroll.
pub open spec fn meilleure_relance(
    tables: Seq<StatsJet>,
    objectif: Objectif,
    score: int,
    mise: int,
    choix: Seq<Possibilite>,
    relances: nat,
    nb_poss: nat,
) -> int
    decreases relances, 0int, nb_poss,
{
    if nb_poss == 0 || relances == 0 {
        0
    } else {
        let poss = choix[nb_poss - 1];
        let autres = meilleure_relance(
            tables,
            objectif,
            score,
            mise,
            choix,
            relances,
            (nb_poss - 1) as nat,
        );
        if score + mise + poss.valeur >= SCORE_MAX {
            autres
        } else {
            le_plus_grand(
                autres,
                valeur_bornee(
                    tables,
                    objectif,
                    score,
                    poss.nb_des_relance as int,
                    mise + poss.valeur,
                    (relances - 1) as nat,
                ),
            )
        }
    }
}

/// What the roll was worth with one reroll fewer, and nothing where no
/// reroll is allowed.
pub open spec fn valeur_precedente(
    tables: Seq<StatsJet>,
    objectif: Objectif,
    score: int,
    nb_des: int,
    mise: int,
    relances: nat,
) -> int {
    if relances == 0 {
        0
    } else {
        valeur_bornee(tables, objectif, score, nb_des, mise, (relances - 1) as nat)
    }
}

/// The last reroll allowed adds nothing to what the roll is worth.
pub open spec fn palier(
    tables: Seq<StatsJet>,
    objectif: Objectif,
    score: int,
    nb_des: int,
    mise: int,
    relances: nat,
) -> bool {
    valeur_bornee(tables, objectif, score, nb_des, mise, relances) == valeur_precedente(
        tables,
        objectif,
        score,
        nb_des,
        mise,
        relances,
    )
}

/// The key under which the worth of a state is kept: the state itself,
/// written as one number.
pub open spec fn cle_memo(score: Valeur, nb_des: usize, mise: Valeur, relances: u64) -> u128 {
    (relances + 0x1_0000_0000_0000_0000 * (mise + 0x1_0000 * (score + 0x1_0000 * nb_des))) as u128
}

/// Every worth that is kept is the worth of its state.
pub open spec fn memo_exact(memo: Map<u128, u64>, tables: Seq<StatsJet>, objectif: Objectif) -> bool {
    forall|score: Valeur, nb_des: usize, mise: Valeur, relances: u64|
        1 <= nb_des <= 6 && memo.contains_key(#[trigger] cle_memo(score, nb_des, mise, relances))
            ==> memo[cle_memo(score, nb_des, mise, relances)] == valeur_bornee(
            tables,
            objectif,
            score as int,
            nb_des as int,
            mise as int,
            relances as nat,
        ) <= plafond(objectif)
}

/// The number of rerolls of the state that a key stands for.
pub open spec fn relances_de(cle: u128) -> int {
    (cle as int) % 0x1_0000_0000_0000_0000
}

/// Nothing that was kept is lost or changed.
pub open spec fn memo_conserve(avant: Map<u128, u64>, apres: Map<u128, u64>) -> bool {
    forall|cle: u128| #[trigger]
        avant.contains_key(cle) ==> apres.contains_key(cle) && apres[cle] == avant[cle]
}

/// Nothing that was kept is lost or changed, and what is new is for states
/// of fewer than `limite` rerolls.
pub open spec fn memo_etendu(avant: Map<u128, u64>, apres: Map<u128, u64>, limite: int) -> bool {
    &&& memo_conserve(avant, apres)
    &&& forall|cle: u128| #[trigger]
        apres.contains_key(cle) ==> avant.contains_key(cle) || relances_de(cle) < limite
}

/// Two states with one key are one state, and the key tells its number of
/// rerolls.
proof fn lemma_cle_memo(
    score: Valeur,
    nb_des: usize,
    mise: Valeur,
    relances: u64,
    score_2: Valeur,
    nb_des_2: usize,
    mise_2: Valeur,
    relances_2: u64,
)
    requires
        nb_des <= 6,
        nb_des_2 <= 6,
        cle_memo(score, nb_des, mise, relances) == cle_memo(score_2, nb_des_2, mise_2, relances_2),
    ensures
        score == score_2,
        nb_des == nb_des_2,
        mise == mise_2,
        relances == relances_2,
        relances_de(cle_memo(score, nb_des, mise, relances)) == relances,
{
}

/// Adding the worth of one more choice keeps the sum under what the rolls
/// counted so far could bring at most.
proof fn lemma_somme_majoree(somme: int, total: int, nb_jets: int, meilleur: int, plafond: int)
    by (nonlinear_arith)
    requires
        0 <= somme <= total * plafond,
        0 <= nb_jets,
        0 <= meilleur <= plafond,
        0 <= total,
    ensures
        0 <= nb_jets * meilleur,
        somme + nb_jets * meilleur <= (total + nb_jets) * plafond,
{
}

/// The sum of the worths, over the number of rolls, is within what can come
/// out, as each worth is.
proof fn lemma_quotient_majore(somme: int, total: int, nb_jets: int, plafond: int)
    by (nonlinear_arith)
    requires
        0 <= somme <= total * plafond,
        0 <= total <= nb_jets,
        0 < nb_jets,
        0 <= plafond,
    ensures
        0 <= somme / nb_jets <= plafond,
        total * plafond <= nb_jets * plafond,
{
}

/// Writes a state as the key under which its worth is kept.
fn cle(score: Valeur, nb_des: usize, mise: Valeur, relances: u64) -> (k: u128)
    requires
        nb_des <= 6,
    ensures
        k == cle_memo(score, nb_des, mise, relances),
{
    let etat: u128 = (nb_des as u128 * 0x1_0000 + score as u128) * 0x1_0000 + mise as u128;
    etat * 0x1_0000_0000_0000_0000 + relances as u128
}

/// What stopping is worth after a roll whose dearest combination is worth
/// `valeur_max`.
pub fn valeur_arret(objectif: Objectif, score: Valeur, mise: Valeur, valeur_max: Valeur) -> (v: u64)
    ensures
        v == arret(objectif, score as int, mise as int, valeur_max as int),
        v <= plafond(objectif),
{
    let total: u32 = score as u32 + mise as u32 + valeur_max as u32;
    match objectif {
        Objectif::Gain => if total <= SCORE_MAX as u32 {
            (mise as u64 + valeur_max as u64) * ECHELLE
        } else {
            0
        },
        Objectif::Fin => if total == SCORE_MAX as u32 {
            ECHELLE
        } else {
            0
        },
    }
}

/// Works out what a roll of `nb_des` dice is worth with up to `relances`
/// rerolls after it, keeping each worth that it works out and working none
/// out twice.
pub fn calcul(
    tables: &Vec<StatsJet>,
    memo: &mut HashMap<u128, u64>,
    objectif: Objectif,
    score: Valeur,
    nb_des: usize,
    mise: Valeur,
    relances: u64,
) -> (v: u64)
    requires
        tables_bien_formees(tables@),
        memo_exact(old(memo)@, tables@, objectif),
        1 <= nb_des <= 6,
    ensures
        v == valeur_bornee(
            tables@,
            objectif,
            score as int,
            nb_des as int,
            mise as int,
            relances as nat,
        ),
        v <= plafond(objectif),
        memo_exact(final(memo)@, tables@, objectif),
        memo_etendu(old(memo)@, final(memo)@, relances + 1),
    decreases relances,
{
    let cle = cle(score, nb_des, mise, relances);
    if let Some(connue) = memo.get(&cle) {
        return *connue;
    }
    let ghost memo_avant = memo@;
    let jet = &tables[nb_des - 1];
    let nb_choix = jet.stats_choix.len();
    let mut somme: u64 = 0;
    let mut i: usize = 0;
    proof {
        assert(jet.stats_choix@.take(0).len() == 0);
        assert(jet_bien_forme(tables@[nb_des - 1], nb_des as nat));
        lemma_total_gagnants_prefixe(jet.stats_choix@, 0);
    }
    while i < nb_choix
        invariant
            tables_bien_formees(tables@),
            1 <= nb_des <= 6,
            *jet == tables@[nb_des - 1],
            nb_choix == jet.stats_choix@.len(),
            i <= nb_choix,
            somme == somme_des_choix(
                tables@,
                objectif,
                score as int,
                nb_des as int,
                mise as int,
                relances as nat,
                i as nat,
            ),
            somme <= total_gagnants(jet.stats_choix@.take(i as int)) * plafond(objectif),
            0 <= total_gagnants(jet.stats_choix@.take(i as int)),
            total_gagnants(jet.stats_choix@) <= jet.nb_jets == nb_jets(nb_des as nat) <= 46656,
            memo_exact(memo@, tables@, objectif),
            memo_etendu(memo_avant, memo@, relances as int),
        decreases nb_choix - i,
    {
        let stats_choix = &jet.stats_choix[i];
        let nb_poss = stats_choix.choix.len();
        let mut meilleur = valeur_arret(objectif, score, mise, stats_choix.valeur_max);
        if relances > 0 {
            let ghost arret = meilleur;
            let mut j: usize = 0;
            while j < nb_poss
                invariant
                    tables_bien_formees(tables@),
                    1 <= nb_des <= 6,
                    *jet == tables@[nb_des - 1],
                    i < jet.stats_choix@.len(),
                    *stats_choix == jet.stats_choix@[i as int],
                    nb_poss == stats_choix.choix@.len(),
                    j <= nb_poss,
                    relances > 0,
                    meilleur == le_plus_grand(
                        arret as int,
                        meilleure_relance(
                            tables@,
                            objectif,
                            score as int,
                            mise as int,
                            stats_choix.choix@,
                            relances as nat,
                            j as nat,
                        ),
                    ),
                    meilleur <= plafond(objectif),
                    memo_exact(memo@, tables@, objectif),
                    memo_etendu(memo_avant, memo@, relances as int),
                decreases nb_poss - j,
            {
                let poss = &stats_choix.choix[j];
                let nouvelle_mise: u32 = mise as u32 + poss.valeur as u32;
                // Having reached the end of the game or gone past it, the
                // player rolls no more.
                if score as u32 + nouvelle_mise < SCORE_MAX as u32 {
                    assert(1 <= jet.stats_choix@[i as int].choix@[j as int].nb_des_relance <= 6);
                    let relance = calcul(
                        tables,
                        memo,
                        objectif,
                        score,
                        poss.nb_des_relance,
                        nouvelle_mise as Valeur,
                        relances - 1,
                    );
                    if relance > meilleur {
                        meilleur = relance;
                    }
                }
                j += 1;
            }
        }
        proof {
            assert(valeur_du_choix(
                tables@,
                objectif,
                score as int,
                mise as int,
                *stats_choix,
                relances as nat,
            ) == meilleur);
            lemma_total_gagnants_suivant(jet.stats_choix@, i as int);
            lemma_total_gagnants_prefixe(jet.stats_choix@, i + 1);
            lemma_somme_majoree(
                somme as int,
                total_gagnants(jet.stats_choix@.take(i as int)),
                stats_choix.nb_jets as int,
                meilleur as int,
                plafond(objectif),
            );
            lemma_quotient_majore(
                somme + stats_choix.nb_jets * meilleur,
                total_gagnants(jet.stats_choix@.take(i + 1)),
                46656,
                plafond(objectif),
            );
        }
        somme = somme + stats_choix.nb_jets * meilleur;
        i += 1;
    }
    proof {
        assert(jet.stats_choix@.take(nb_choix as int) =~= jet.stats_choix@);
        lemma_quotient_majore(
            somme as int,
            total_gagnants(jet.stats_choix@),
            jet.nb_jets as int,
            plafond(objectif),
        );
    }
    let v = somme / jet.nb_jets;
    proof {
        assert forall|score_2: Valeur, nb_des_2: usize, mise_2: Valeur, relances_2: u64|
            1 <= nb_des_2 <= 6 && #[trigger] cle_memo(score_2, nb_des_2, mise_2, relances_2)
                == cle implies score_2 == score && nb_des_2 == nb_des && mise_2 == mise
            && relances_2 == relances by {
            lemma_cle_memo(score, nb_des, mise, relances, score_2, nb_des_2, mise_2, relances_2);
        }
        lemma_cle_memo(score, nb_des, mise, relances, score, nb_des, mise, relances);
    }
    let deja = memo.insert(cle, v);
    assert(deja is None);
    v
}

/// There is at least one roll.
proof fn lemma_nb_jets_positif(nb_des: nat)
    ensures
        0 < nb_jets(nb_des),
    decreases nb_des,
{
    if nb_des > 0 {
        lemma_nb_jets_positif((nb_des - 1) as nat);
    }
}

/// A larger worth weighs more, for the same number of rolls.
proof fn lemma_produit_croissant(nb_jets: int, avant: int, apres: int)
    by (nonlinear_arith)
    requires
        0 <= nb_jets,
        avant <= apres,
    ensures
        nb_jets * avant <= nb_jets * apres,
{
}

/// One more reroll allowed never makes a roll worth less: the player may
/// always leave the last reroll unused.
pub proof fn lemma_valeur_croissante(
    tables: Seq<StatsJet>,
    objectif: Objectif,
    score: int,
    nb_des: int,
    mise: int,
    relances: nat,
)
    ensures
        valeur_bornee(tables, objectif, score, nb_des, mise, relances) <= valeur_bornee(
            tables,
            objectif,
            score,
            nb_des,
            mise,
            relances + 1,
        ),
    decreases relances, 3int, 0int,
{
    let nb_choix = tables[nb_des - 1].stats_choix@.len();
    lemma_somme_croissante(tables, objectif, score, nb_des, mise, relances, nb_choix);
    lemma_nb_jets_positif(nb_des as nat);
    vstd::arithmetic::div_mod::lemma_div_is_ordered(
        somme_des_choix(tables, objectif, score, nb_des, mise, relances, nb_choix),
        somme_des_choix(tables, objectif, score, nb_des, mise, relances + 1, nb_choix),
        nb_jets(nb_des as nat) as int,
    );
}

/// One more reroll allowed never makes the sum of the worths smaller.
proof fn lemma_somme_croissante(
    tables: Seq<StatsJet>,
    objectif: Objectif,
    score: int,
    nb_des: int,
    mise: int,
    relances: nat,
    nb_choix: nat,
)
    ensures
        somme_des_choix(tables, objectif, score, nb_des, mise, relances, nb_choix)
            <= somme_des_choix(tables, objectif, score, nb_des, mise, relances + 1, nb_choix),
    decreases relances, 2int, nb_choix,
{
    if nb_choix > 0 {
        let stats_choix = tables[nb_des - 1].stats_choix@[nb_choix - 1];
        lemma_somme_croissante(
            tables,
            objectif,
            score,
            nb_des,
            mise,
            relances,
            (nb_choix - 1) as nat,
        );
        lemma_choix_croissant(tables, objectif, score, mise, stats_choix, relances);
        lemma_produit_croissant(
            stats_choix.nb_jets as int,
            valeur_du_choix(tables, objectif, score, mise, stats_choix, relances),
            valeur_du_choix(tables, objectif, score, mise, stats_choix, relances + 1),
        );
    }
}

/// One more reroll allowed never makes a choice worth less.
proof fn lemma_choix_croissant(
    tables: Seq<StatsJet>,
    objectif: Objectif,
    score: int,
    mise: int,
    stats_choix: StatsChoix,
    relances: nat,
)
    ensures
        valeur_du_choix(tables, objectif, score, mise, stats_choix, relances) <= valeur_du_choix(
            tables,
            objectif,
            score,
            mise,
            stats_choix,
            relances + 1,
        ),
    decreases relances, 1int, 0int,
{
    lemma_relance_croissante(
        tables,
        objectif,
        score,
        mise,
        stats_choix.choix@,
        relances,
        stats_choix.choix@.len(),
    );
}

/// One more reroll allowed never makes rolling again worth less, and
/// rolling again is never worth less than nothing.
proof fn lemma_relance_croissante(
    tables: Seq<StatsJet>,
    objectif: Objectif,
    score: int,
    mise: int,
    choix: Seq<Possibilite>,
    relances: nat,
    nb_poss: nat,
)
    ensures
        0 <= meilleure_relance(tables, objectif, score, mise, choix, relances, nb_poss)
            <= meilleure_relance(tables, objectif, score, mise, choix, relances + 1, nb_poss),
    decreases relances, 0int, nb_poss,
{
    if nb_poss > 0 {
        let poss = choix[nb_poss - 1];
        lemma_relance_croissante(
            tables,
            objectif,
            score,
            mise,
            choix,
            relances,
            (nb_poss - 1) as nat,
        );
        if relances > 0 {
            lemma_valeur_croissante(
                tables,
                objectif,
                score,
                poss.nb_des_relance as int,
                mise + poss.valeur,
                (relances - 1) as nat,
            );
        }
    }
}

/// With nothing banked or at stake in the negative, a roll is worth
/// nothing at least and no more than the whole of what can come out.
pub proof fn lemma_valeur_plafonnee(
    tables: Seq<StatsJet>,
    objectif: Objectif,
    score: int,
    nb_des: int,
    mise: int,
    relances: nat,
)
    requires
        tables_bien_formees(tables),
        1 <= nb_des <= 6,
        0 <= score,
        0 <= mise,
    ensures
        0 <= valeur_bornee(tables, objectif, score, nb_des, mise, relances) <= plafond(objectif),
    decreases relances, 3int, 0int,
{
    let stats_choix = tables[nb_des - 1].stats_choix@;
    assert(jet_bien_forme(tables[nb_des - 1], nb_des as nat));
    lemma_somme_plafonnee(tables, objectif, score, nb_des, mise, relances, stats_choix.len());
    assert(stats_choix.take(stats_choix.len() as int) =~= stats_choix);
    lemma_nb_jets_positif(nb_des as nat);
    lemma_quotient_majore(
        somme_des_choix(tables, objectif, score, nb_des, mise, relances, stats_choix.len()),
        total_gagnants(stats_choix),
        nb_jets(nb_des as nat) as int,
        plafond(objectif),
    );
}

/// The sum of the worths of the first choices is within what the rolls that
/// offer them could bring at most.
proof fn lemma_somme_plafonnee(
    tables: Seq<StatsJet>,
    objectif: Objectif,
    score: int,
    nb_des: int,
    mise: int,
    relances: nat,
    nb_choix: nat,
)
    requires
        tables_bien_formees(tables),
        1 <= nb_des <= 6,
        0 <= score,
        0 <= mise,
        nb_choix <= tables[nb_des - 1].stats_choix@.len(),
    ensures
        0 <= somme_des_choix(tables, objectif, score, nb_des, mise, relances, nb_choix)
            <= total_gagnants(tables[nb_des - 1].stats_choix@.take(nb_choix as int)) * plafond(
            objectif,
        ),
        0 <= total_gagnants(tables[nb_des - 1].stats_choix@.take(nb_choix as int)),
    decreases relances, 2int, nb_choix,
{
    let tous = tables[nb_des - 1].stats_choix@;
    lemma_total_gagnants_positif(tous.take(nb_choix as int));
    if nb_choix > 0 {
        let stats_choix = tous[nb_choix - 1];
        lemma_somme_plafonnee(
            tables,
            objectif,
            score,
            nb_des,
            mise,
            relances,
            (nb_choix - 1) as nat,
        );
        assert(jet_bien_forme(tables[nb_des - 1], nb_des as nat));
        assert forall|j: int| 0 <= j < stats_choix.choix@.len() implies 1 <= (
        #[trigger] stats_choix.choix@[j]).nb_des_relance <= 6 by {
            assert(1 <= tous[nb_choix - 1].choix@[j].nb_des_relance <= 6);
        }
        lemma_choix_plafonne(tables, objectif, score, mise, stats_choix, relances);
        lemma_total_gagnants_suivant(tous, nb_choix - 1);
        lemma_somme_majoree(
            somme_des_choix(
                tables,
                objectif,
                score,
                nb_des,
                mise,
                relances,
                (nb_choix - 1) as nat,
            ),
            total_gagnants(tous.take(nb_choix - 1)),
            stats_choix.nb_jets as int,
            valeur_du_choix(tables, objectif, score, mise, stats_choix, relances),
            plafond(objectif),
        );
    } else {
        assert(tous.take(0).len() == 0);
    }
}

/// Stopping is worth nothing at least and no more than can come out.
proof fn lemma_arret_plafonne(objectif: Objectif, score: int, mise: int, valeur_max: int)
    by (nonlinear_arith)
    requires
        0 <= score,
        0 <= mise,
        0 <= valeur_max,
    ensures
        0 <= arret(objectif, score, mise, valeur_max) <= plafond(objectif),
{
}

/// A choice is worth nothing at least and no more than can come out.
proof fn lemma_choix_plafonne(
    tables: Seq<StatsJet>,
    objectif: Objectif,
    score: int,
    mise: int,
    stats_choix: StatsChoix,
    relances: nat,
)
    requires
        tables_bien_formees(tables),
        0 <= score,
        0 <= mise,
        forall|j: int|
            0 <= j < stats_choix.choix@.len() ==> 1 <= (#[trigger] stats_choix.choix@[j]).nb_des_relance
                <= 6,
    ensures
        0 <= valeur_du_choix(tables, objectif, score, mise, stats_choix, relances) <= plafond(
            objectif,
        ),
    decreases relances, 1int, 0int,
{
    lemma_arret_plafonne(objectif, score, mise, stats_choix.valeur_max as int);
    lemma_relance_plafonnee(
        tables,
        objectif,
        score,
        mise,
        stats_choix.choix@,
        relances,
        stats_choix.choix@.len(),
    );
}

/// Rolling again is worth nothing at least and no more than can come out.
proof fn lemma_relance_plafonnee(
    tables: Seq<StatsJet>,
    objectif: Objectif,
    score: int,
    mise: int,
    choix: Seq<Possibilite>,
    relances: nat,
    nb_poss: nat,
)
    requires
        tables_bien_formees(tables),
        0 <= score,
        0 <= mise,
        nb_poss <= choix.len(),
        forall|j: int| 0 <= j < choix.len() ==> 1 <= (#[trigger] choix[j]).nb_des_relance <= 6,
    ensures
        0 <= meilleure_relance(tables, objectif, score, mise, choix, relances, nb_poss) <= plafond(
            objectif,
        ),
    decreases relances, 0int, nb_poss,
{
    if nb_poss > 0 && relances > 0 {
        let poss = choix[nb_poss - 1];
        lemma_relance_plafonnee(
            tables,
            objectif,
            score,
            mise,
            choix,
            relances,
            (nb_poss - 1) as nat,
        );
        lemma_valeur_plafonnee(
            tables,
            objectif,
            score,
            poss.nb_des_relance as int,
            mise + poss.valeur,
            (relances - 1) as nat,
        );
    }
}

/// As long as each reroll allowed adds to what a roll is worth, the roll
/// is worth more parts than rerolls are allowed.
proof fn lemma_sans_palier(
    tables: Seq<StatsJet>,
    objectif: Objectif,
    score: int,
    nb_des: int,
    mise: int,
    relances: nat,
)
    requires
        forall|k: nat| k <= relances ==> !#[trigger] palier(tables, objectif, score, nb_des, mise, k),
        0 <= valeur_bornee(tables, objectif, score, nb_des, mise, 0),
    ensures
        valeur_bornee(tables, objectif, score, nb_des, mise, relances) > relances,
    decreases relances,
{
    assert(!palier(tables, objectif, score, nb_des, mise, relances));
    if relances > 0 {
        lemma_sans_palier(tables, objectif, score, nb_des, mise, (relances - 1) as nat);
        lemma_valeur_croissante(tables, objectif, score, nb_des, mise, (relances - 1) as nat);
    }
}

/// What a roll is worth stops growing: there is a number of rerolls of
/// which the last adds nothing.
pub proof fn lemma_palier_atteint(
    tables: Seq<StatsJet>,
    objectif: Objectif,
    score: int,
    nb_des: int,
    mise: int,
)
    requires
        tables_bien_formees(tables),
        1 <= nb_des <= 6,
        0 <= score,
        0 <= mise,
    ensures
        exists|relances: nat|
            relances <= plafond(objectif) && #[trigger] palier(
                tables,
                objectif,
                score,
                nb_des,
                mise,
                relances,
            ),
{
    let limite = plafond(objectif) as nat;
    lemma_valeur_plafonnee(tables, objectif, score, nb_des, mise, 0);
    lemma_valeur_plafonnee(tables, objectif, score, nb_des, mise, limite);
    if forall|k: nat| k <= limite ==> !#[trigger] palier(tables, objectif, score, nb_des, mise, k) {
        lemma_sans_palier(tables, objectif, score, nb_des, mise, limite);
    }
}

} // verus!
