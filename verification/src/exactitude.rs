//! How far the worths counted in whole parts are from the expectations
//! themselves. An expectation with up to `relances` rerolls is a fraction
//! whose denominator is the number of rolls of six dice to the power
//! `relances + 1`; its numerator is worked out here without any division.

use vstd::prelude::*;
use crate::SCORE_MAX;
use crate::choix::nb_jets;
use crate::solveur::arret;
use crate::solveur::le_plus_grand;
use crate::solveur::meilleure_relance;
use crate::solveur::somme_des_choix;
use crate::solveur::valeur_bornee;
use crate::solveur::valeur_du_choix;
use crate::solveur::ECHELLE;
use crate::solveur::Objectif;
use crate::stats::jet_bien_forme;
use crate::stats::lemma_total_gagnants_positif;
use crate::stats::lemma_total_gagnants_suivant;
use crate::stats::tables_bien_formees;
use crate::stats::total_gagnants;
use crate::stats::Possibilite;
use crate::stats::StatsChoix;
use crate::stats::StatsJet;

verus! {

/// The number of rolls of six dice to the power `puissance`.
pub open spec fn puissance_des_jets(puissance: nat) -> int
    decreases puissance,
{
    if puissance == 0 {
        1
    } else {
        46656 * puissance_des_jets((puissance - 1) as nat)
    }
}

/// What stopping brings, in points for the gain and in certainties for the
/// end of the game.
pub open spec fn arret_exact(objectif: Objectif, score: int, mise: int, valeur_max: int) -> int {
    match objectif {
        Objectif::Gain => if score + mise + valeur_max <= SCORE_MAX {
            mise + valeur_max
        } else {
            0
        },
        Objectif::Fin => if score + mise + valeur_max == SCORE_MAX {
            1
        } else {
            0
        },
    }
}

/// The numerator of what a roll of `nb_des` dice is worth with up to
/// `relances` rerolls after it, over `puissance_des_jets(relances + 1)`: the
/// numerators of the worths of the choices, each times the number of rolls
/// that offer it, brought to the rolls of six dice.
pub open spec fn numerateur(
    tables: Seq<StatsJet>,
    objectif: Objectif,
    score: int,
    nb_des: int,
    mise: int,
    relances: nat,
) -> int
    decreases relances, 3int, 0int,
{
    nb_jets((6 - nb_des) as nat) * somme_des_numerateurs(
        tables,
        objectif,
        score,
        nb_des,
        mise,
        relances,
        tables[nb_des - 1].stats_choix@.len(),
    )
}

/// The numerators of the worths of the first `nb_choix` choices, each times
/// the number of rolls that offer the choice, added up.
pub open spec fn somme_des_numerateurs(
    tables: Seq<StatsJet>,
    objectif: Objectif,
    score: int,
    nb_des: int,
    mise: int,
    relances: nat,
    nb_choix: nat,
) -> int
    decreases relances, 2int, nb_choix,
{
    if nb_choix == 0 {
        0
    } else {
        let stats_choix = tables[nb_des - 1].stats_choix@[nb_choix - 1];
        somme_des_numerateurs(
            tables,
            objectif,
            score,
            nb_des,
            mise,
            relances,
            (nb_choix - 1) as nat,
        ) + stats_choix.nb_jets * numerateur_du_choix(
            tables,
            objectif,
            score,
            mise,
            stats_choix,
            relances,
        )
    }
}

/// The numerator of what a choice is worth, over
/// `puissance_des_jets(relances)`.
pub open spec fn numerateur_du_choix(
    tables: Seq<StatsJet>,
    objectif: Objectif,
    score: int,
    mise: int,
    stats_choix: StatsChoix,
    relances: nat,
) -> int
    decreases relances, 1int, 0int,
{
    let arret = arret_exact(objectif, score, mise, stats_choix.valeur_max as int)
        * puissance_des_jets(relances);
    if relances == 0 {
        arret
    } else {
        le_plus_grand(
            arret,
            meilleur_numerateur(
                tables,
                objectif,
                score,
                mise,
                stats_choix.choix@,
                relances,
                stats_choix.choix@.len(),
            ),
        )
    }
}

/// The largest numerator of what taking one of the first `nb_poss`
/// combinations and rolling again is worth, over
/// `puissance_des_jets(relances)`.
pub open spec fn meilleur_numerateur(
    tables: Seq<StatsJet>,
    objectif: Objectif,
    score: int,
    mise: int,
    choix: Seq<Possibilite>,
    relances: nat,
    nb_poss: nat,
) -> int
    decreases relances, 0int, nb_poss,
{
    if nb_poss == 0 || relances == 0 {
        0
    } else {
        let poss = choix[nb_poss - 1];
        let autres = meilleur_numerateur(
            tables,
            objectif,
            score,
            mise,
            choix,
            relances,
            (nb_poss - 1) as nat,
        );
        if score + mise + poss.valeur >= SCORE_MAX {
            autres
        } else {
            le_plus_grand(
                autres,
                numerateur(
                    tables,
                    objectif,
                    score,
                    poss.nb_des_relance as int,
                    mise + poss.valeur,
                    (relances - 1) as nat,
                ),
            )
        }
    }
}

/// A worth counted in parts is within `marge` parts below a fraction of
/// numerator `exact` over `denominateur`.
pub open spec fn approche(valeur: int, exact: int, denominateur: int, marge: int) -> bool {
    valeur * denominateur <= exact * ECHELLE <= (valeur + marge) * denominateur
}

/// A power of the number of rolls of six dice is at least one.
proof fn lemma_puissance_positive(puissance: nat)
    ensures
        1 <= puissance_des_jets(puissance),
    decreases puissance,
{
    if puissance > 0 {
        lemma_puissance_positive((puissance - 1) as nat);
    }
}

/// The rolls of `nb_des` dice, each counted as many times as there are
/// rolls of the other dice, are the rolls of six dice.
proof fn lemma_jets_de_six_des(nb_des: int)
    requires
        1 <= nb_des <= 6,
    ensures
        nb_jets((6 - nb_des) as nat) * nb_jets(nb_des as nat) == 46656,
        1 <= nb_jets((6 - nb_des) as nat),
        1 <= nb_jets(nb_des as nat),
{
    let autres = nb_jets((6 - nb_des) as nat) as int;
    let jets = nb_jets(nb_des as nat) as int;
    assert(autres * jets == 46656) by (nonlinear_arith)
        requires
            (autres == 7776 && jets == 6) || (autres == 1296 && jets == 36) || (autres == 216
                && jets == 216) || (autres == 36 && jets == 1296) || (autres == 6 && jets == 7776)
                || (autres == 1 && jets == 46656),
    ;
}

/// Stopping is worth in parts what it brings.
proof fn lemma_arret_approche(
    objectif: Objectif,
    score: int,
    mise: int,
    valeur_max: int,
    denominateur: int,
    marge: int,
)
    by (nonlinear_arith)
    requires
        0 <= score,
        0 <= mise,
        0 <= valeur_max,
        1 <= denominateur,
        0 <= marge,
    ensures
        approche(
            arret(objectif, score, mise, valeur_max),
            arret_exact(objectif, score, mise, valeur_max) * denominateur,
            denominateur,
            marge,
        ),
        0 <= arret(objectif, score, mise, valeur_max),
{
}

/// The larger of two worths is as near the larger of two fractions as each
/// worth is near its fraction.
proof fn lemma_plus_grand_approche(
    valeur: int,
    exact: int,
    autre_valeur: int,
    autre_exact: int,
    denominateur: int,
    marge: int,
)
    by (nonlinear_arith)
    requires
        approche(valeur, exact, denominateur, marge),
        approche(autre_valeur, autre_exact, denominateur, marge),
        1 <= denominateur,
    ensures
        approche(
            le_plus_grand(valeur, autre_valeur),
            le_plus_grand(exact, autre_exact),
            denominateur,
            marge,
        ),
{
    let e = ECHELLE as int;
    if exact >= autre_exact {
        assert(autre_exact * e <= exact * e);
    } else {
        assert(exact * e <= autre_exact * e);
    }
    if valeur >= autre_valeur {
        assert(autre_valeur * denominateur <= valeur * denominateur);
        assert((autre_valeur + marge) * denominateur <= (valeur + marge) * denominateur);
    } else {
        assert(valeur * denominateur <= autre_valeur * denominateur);
        assert((valeur + marge) * denominateur <= (autre_valeur + marge) * denominateur);
    }
}

/// A worth that is short by fewer than `marge + 1` parts of a fraction over
/// a power of the rolls is short by `marge + 1` parts at most of the same
/// fraction over the next power.
proof fn lemma_approche_stricte(valeur: int, exact: int, denominateur: int, marge: int)
    by (nonlinear_arith)
    requires
        valeur * denominateur <= exact * ECHELLE < (valeur + marge + 1) * denominateur,
    ensures
        approche(valeur, exact, denominateur, marge + 1),
{
}

/// Adding one choice, the sum of the worths stays as near the sum of the
/// numerators as each worth is near its numerator, for the rolls counted.
proof fn lemma_somme_approche(
    somme: int,
    exacte: int,
    total: int,
    nb_jets: int,
    valeur: int,
    exact: int,
    denominateur: int,
    marge: int,
)
    by (nonlinear_arith)
    requires
        somme * denominateur <= exacte * ECHELLE <= somme * denominateur + marge * denominateur
            * total,
        approche(valeur, exact, denominateur, marge),
        0 <= nb_jets,
        0 <= total,
        0 <= marge,
        1 <= denominateur,
    ensures
        (somme + nb_jets * valeur) * denominateur <= (exacte + nb_jets * exact) * ECHELLE <= (somme
            + nb_jets * valeur) * denominateur + marge * denominateur * (total + nb_jets),
{
    let e = ECHELLE as int;
    assert(nb_jets * (valeur * denominateur) <= nb_jets * (exact * e));
    assert(nb_jets * (exact * e) <= nb_jets * ((valeur + marge) * denominateur));
    assert((somme + nb_jets * valeur) * denominateur == somme * denominateur + nb_jets * (valeur
        * denominateur));
    assert((exacte + nb_jets * exact) * e == exacte * e + nb_jets * (exact * e));
    assert(nb_jets * ((valeur + marge) * denominateur) == nb_jets * (valeur * denominateur) + marge
        * denominateur * nb_jets);
    assert(marge * denominateur * (total + nb_jets) == marge * denominateur * total + marge
        * denominateur * nb_jets);
}

/// Taking the mean over the rolls and dropping what makes no whole part
/// loses less than one part more.
proof fn lemma_moyenne_approche(
    somme: int,
    exacte: int,
    total: int,
    nb_jets: int,
    autres_jets: int,
    denominateur: int,
    marge: int,
)
    by (nonlinear_arith)
    requires
        somme * denominateur <= exacte * ECHELLE <= somme * denominateur + marge * denominateur
            * total,
        0 <= somme,
        0 <= total <= nb_jets,
        1 <= nb_jets,
        1 <= autres_jets,
        autres_jets * nb_jets == 46656,
        0 <= marge,
        1 <= denominateur,
    ensures
        (somme / nb_jets) * (46656 * denominateur) <= (autres_jets * exacte) * ECHELLE < (somme
            / nb_jets + marge + 1) * (46656 * denominateur),
{
    let e = ECHELLE as int;
    let v = somme / nb_jets;
    let r = somme % nb_jets;
    assert(somme == nb_jets * v + r && 0 <= r < nb_jets) by {
        vstd::arithmetic::div_mod::lemma_fundamental_div_mod(somme, nb_jets);
        vstd::arithmetic::div_mod::lemma_mod_bound(somme, nb_jets);
    }
    // Below: the mean times the rolls is no more than the sum.
    assert(v * nb_jets * denominateur <= somme * denominateur);
    assert(v * nb_jets * denominateur <= exacte * e);
    assert(autres_jets * (v * nb_jets * denominateur) <= autres_jets * (exacte * e));
    assert(autres_jets * (v * nb_jets * denominateur) == v * (46656 * denominateur));
    assert(autres_jets * (exacte * e) == (autres_jets * exacte) * e);
    // Above: the sum is less than the mean and one, times the rolls.
    assert(somme * denominateur == v * nb_jets * denominateur + r * denominateur);
    assert(r * denominateur <= (nb_jets - 1) * denominateur);
    assert(marge * denominateur * total <= marge * denominateur * nb_jets);
    assert(exacte * e <= v * nb_jets * denominateur + (nb_jets - 1) * denominateur + marge
        * denominateur * nb_jets);
    assert(v * nb_jets * denominateur + (nb_jets - 1) * denominateur + marge * denominateur
        * nb_jets < (v + marge + 1) * nb_jets * denominateur);
    assert(exacte * e < (v + marge + 1) * nb_jets * denominateur);
    assert(autres_jets * (exacte * e) < autres_jets * ((v + marge + 1) * nb_jets * denominateur));
    assert(autres_jets * ((v + marge + 1) * nb_jets * denominateur) == (v + marge + 1) * (46656
        * denominateur));
}

/// What a roll is worth with up to `relances` rerolls, counted in parts, is
/// the expectation itself less what was dropped, which makes fewer than
/// `relances + 1` parts.
pub proof fn lemma_valeur_approchee(
    tables: Seq<StatsJet>,
    objectif: Objectif,
    score: int,
    nb_des: int,
    mise: int,
    relances: nat,
)
    requires
        tables_bien_formees(tables),
        1 <= nb_des <= 6,
        0 <= score,
        0 <= mise,
    ensures
        valeur_bornee(tables, objectif, score, nb_des, mise, relances) * puissance_des_jets(
            relances + 1,
        ) <= numerateur(tables, objectif, score, nb_des, mise, relances) * ECHELLE,
        numerateur(tables, objectif, score, nb_des, mise, relances) * ECHELLE < (valeur_bornee(
            tables,
            objectif,
            score,
            nb_des,
            mise,
            relances,
        ) + relances + 1) * puissance_des_jets(relances + 1),
    decreases relances, 3int, 0int,
{
    let tous = tables[nb_des - 1].stats_choix@;
    let nb_choix = tous.len();
    let denominateur = puissance_des_jets(relances);
    assert(jet_bien_forme(tables[nb_des - 1], nb_des as nat));
    lemma_puissance_positive(relances);
    lemma_jets_de_six_des(nb_des);
    lemma_somme_approchee(tables, objectif, score, nb_des, mise, relances, nb_choix);
    assert(tous.take(nb_choix as int) =~= tous);
    lemma_moyenne_approche(
        somme_des_choix(tables, objectif, score, nb_des, mise, relances, nb_choix),
        somme_des_numerateurs(tables, objectif, score, nb_des, mise, relances, nb_choix),
        total_gagnants(tous),
        nb_jets(nb_des as nat) as int,
        nb_jets((6 - nb_des) as nat) as int,
        denominateur,
        relances as int,
    );
}

/// The sum of the worths of the first choices is as near the sum of their
/// numerators as each worth is near its numerator, for the rolls counted.
proof fn lemma_somme_approchee(
    tables: Seq<StatsJet>,
    objectif: Objectif,
    score: int,
    nb_des: int,
    mise: int,
    relances: nat,
    nb_choix: nat,
)
    requires
        tables_bien_formees(tables),
        1 <= nb_des <= 6,
        0 <= score,
        0 <= mise,
        nb_choix <= tables[nb_des - 1].stats_choix@.len(),
    ensures
        ({
            let somme = somme_des_choix(tables, objectif, score, nb_des, mise, relances, nb_choix);
            let exacte = somme_des_numerateurs(
                tables,
                objectif,
                score,
                nb_des,
                mise,
                relances,
                nb_choix,
            );
            let denominateur = puissance_des_jets(relances);
            let total = total_gagnants(tables[nb_des - 1].stats_choix@.take(nb_choix as int));
            &&& 0 <= somme
            &&& 0 <= total
            &&& somme * denominateur <= exacte * ECHELLE <= somme * denominateur + relances
                * denominateur * total
        }),
    decreases relances, 2int, nb_choix,
{
    let tous = tables[nb_des - 1].stats_choix@;
    lemma_total_gagnants_positif(tous.take(nb_choix as int));
    lemma_puissance_positive(relances);
    if nb_choix > 0 {
        let stats_choix = tous[nb_choix - 1];
        lemma_somme_approchee(tables, objectif, score, nb_des, mise, relances, (nb_choix - 1) as nat);
        assert(jet_bien_forme(tables[nb_des - 1], nb_des as nat));
        assert forall|j: int| 0 <= j < stats_choix.choix@.len() implies 1 <= (
        #[trigger] stats_choix.choix@[j]).nb_des_relance <= 6 by {
            assert(1 <= tous[nb_choix - 1].choix@[j].nb_des_relance <= 6);
        }
        lemma_choix_approche(tables, objectif, score, mise, stats_choix, relances);
        lemma_total_gagnants_suivant(tous, nb_choix - 1);
        lemma_total_gagnants_positif(tous.take(nb_choix - 1));
        let valeur = valeur_du_choix(tables, objectif, score, mise, stats_choix, relances);
        vstd::arithmetic::mul::lemma_mul_nonnegative(stats_choix.nb_jets as int, valeur);
        lemma_somme_approche(
            somme_des_choix(tables, objectif, score, nb_des, mise, relances, (nb_choix - 1) as nat),
            somme_des_numerateurs(
                tables,
                objectif,
                score,
                nb_des,
                mise,
                relances,
                (nb_choix - 1) as nat,
            ),
            total_gagnants(tous.take(nb_choix - 1)),
            stats_choix.nb_jets as int,
            valeur,
            numerateur_du_choix(tables, objectif, score, mise, stats_choix, relances),
            puissance_des_jets(relances),
            relances as int,
        );
    } else {
        assert(tous.take(0).len() == 0);
    }
}

/// What a choice is worth, counted in parts, is short of the worth itself
/// by `relances` parts at most.
proof fn lemma_choix_approche(
    tables: Seq<StatsJet>,
    objectif: Objectif,
    score: int,
    mise: int,
    stats_choix: StatsChoix,
    relances: nat,
)
    requires
        tables_bien_formees(tables),
        0 <= score,
        0 <= mise,
        forall|j: int|
            0 <= j < stats_choix.choix@.len() ==> 1 <= (#[trigger] stats_choix.choix@[j]).nb_des_relance
                <= 6,
    ensures
        approche(
            valeur_du_choix(tables, objectif, score, mise, stats_choix, relances),
            numerateur_du_choix(tables, objectif, score, mise, stats_choix, relances),
            puissance_des_jets(relances),
            relances as int,
        ),
        0 <= valeur_du_choix(tables, objectif, score, mise, stats_choix, relances),
    decreases relances, 1int, 0int,
{
    lemma_puissance_positive(relances);
    lemma_arret_approche(
        objectif,
        score,
        mise,
        stats_choix.valeur_max as int,
        puissance_des_jets(relances),
        relances as int,
    );
    if relances > 0 {
        lemma_relance_approchee(
            tables,
            objectif,
            score,
            mise,
            stats_choix.choix@,
            relances,
            stats_choix.choix@.len(),
        );
        lemma_plus_grand_approche(
            arret(objectif, score, mise, stats_choix.valeur_max as int),
            arret_exact(objectif, score, mise, stats_choix.valeur_max as int) * puissance_des_jets(
                relances,
            ),
            meilleure_relance(
                tables,
                objectif,
                score,
                mise,
                stats_choix.choix@,
                relances,
                stats_choix.choix@.len(),
            ),
            meilleur_numerateur(
                tables,
                objectif,
                score,
                mise,
                stats_choix.choix@,
                relances,
                stats_choix.choix@.len(),
            ),
            puissance_des_jets(relances),
            relances as int,
        );
    }
}

/// What rolling again is worth, counted in parts, is short of the worth
/// itself by `relances` parts at most.
proof fn lemma_relance_approchee(
    tables: Seq<StatsJet>,
    objectif: Objectif,
    score: int,
    mise: int,
    choix: Seq<Possibilite>,
    relances: nat,
    nb_poss: nat,
)
    requires
        tables_bien_formees(tables),
        0 <= score,
        0 <= mise,
        0 < relances,
        nb_poss <= choix.len(),
        forall|j: int| 0 <= j < choix.len() ==> 1 <= (#[trigger] choix[j]).nb_des_relance <= 6,
    ensures
        approche(
            meilleure_relance(tables, objectif, score, mise, choix, relances, nb_poss),
            meilleur_numerateur(tables, objectif, score, mise, choix, relances, nb_poss),
            puissance_des_jets(relances),
            relances as int,
        ),
        0 <= meilleure_relance(tables, objectif, score, mise, choix, relances, nb_poss),
    decreases relances, 0int, nb_poss,
{
    lemma_puissance_positive(relances);
    if nb_poss > 0 {
        let poss = choix[nb_poss - 1];
        lemma_relance_approchee(
            tables,
            objectif,
            score,
            mise,
            choix,
            relances,
            (nb_poss - 1) as nat,
        );
        if score + mise + poss.valeur < SCORE_MAX {
            let avant = (relances - 1) as nat;
            lemma_valeur_approchee(
                tables,
                objectif,
                score,
                poss.nb_des_relance as int,
                mise + poss.valeur,
                avant,
            );
            let valeur = valeur_bornee(
                tables,
                objectif,
                score,
                poss.nb_des_relance as int,
                mise + poss.valeur,
                avant,
            );
            crate::solveur::lemma_valeur_plafonnee(
                tables,
                objectif,
                score,
                poss.nb_des_relance as int,
                mise + poss.valeur,
                avant,
            );
            lemma_approche_stricte(
                valeur,
                numerateur(
                    tables,
                    objectif,
                    score,
                    poss.nb_des_relance as int,
                    mise + poss.valeur,
                    avant,
                ),
                puissance_des_jets(relances),
                avant as int,
            );
            lemma_plus_grand_approche(
                meilleure_relance(
                    tables,
                    objectif,
                    score,
                    mise,
                    choix,
                    relances,
                    (nb_poss - 1) as nat,
                ),
                meilleur_numerateur(
                    tables,
                    objectif,
                    score,
                    mise,
                    choix,
                    relances,
                    (nb_poss - 1) as nat,
                ),
                valeur,
                numerateur(
                    tables,
                    objectif,
                    score,
                    poss.nb_des_relance as int,
                    mise + poss.valeur,
                    avant,
                ),
                puissance_des_jets(relances),
                relances as int,
            );
        }
    } else {
        assert(approche(0, 0, puissance_des_jets(relances), relances as int)) by (nonlinear_arith)
            requires
                1 <= puissance_des_jets(relances),
                0 <= relances,
        ;
    }
}

} // verus!
