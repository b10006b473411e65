//! What is known of the rolls of one to six dice: for each number of dice
//! the choices that a roll may put before the player, how many rolls offer
//! each, and what is noted of each combination for working out what a turn
//! is worth; and the questions asked of these tables.

use vstd::prelude::*;
use vstd::string::StringExecFns;
use std::collections::HashMap;
use crate::NB_DES_TOT;
use crate::SCORE_MAX;
use crate::choix::ChoixCompte;
use crate::choix::choix_du_jet;
use crate::choix::compter_jets;
use crate::choix::enumerer_choix;
use crate::choix::histo_du_jet;
use crate::choix::lemma_choix_offert;
use crate::choix::lemma_combinaisons_en_ordre;
use crate::choix::lemma_histo_du_jet;
use crate::choix::lemma_offre_jouable;
use crate::choix::nb_jets;
use crate::choix::nb_jets_offrant;
use crate::choix::repartition_exacte;
use crate::choix::total_jets;
use crate::choix::vient_avant;
use crate::combinaison::Combinaison;
use crate::combinaison::Valeur;
use crate::combinaison::ecrire_nombre;
use crate::combinaison::en_chiffres;
use crate::solveur::calcul;
use crate::solveur::lemma_valeur_croissante;
use crate::solveur::memo_conserve;
use crate::solveur::memo_etendu;
use crate::solveur::memo_exact;
use crate::solveur::palier;
use crate::solveur::valeur_bornee;
use crate::solveur::valeur_precedente;
use crate::solveur::Objectif;
use crate::solveur::ECHELLE;

verus! {

/// One of the combinations between which the player chooses.
#[derive(Clone, Copy, Debug, PartialEq, Eq)]
pub struct Possibilite {
    /// The combination that may be taken.
    pub comb: Combinaison,
    /// What it is worth.
    pub valeur: Valeur,
    /// The number of dice with which the player may then roll again.
    pub nb_des_relance: usize,
}

/// One of the choices that a winning roll may put before the player.
#[derive(Clone, Debug, PartialEq, Eq)]
pub struct StatsChoix {
    /// The combinations on offer.
    pub choix: Vec<Possibilite>,
    /// The number of rolls that offer them.
    pub nb_jets: u64,
    /// The value of the dearest of them.
    pub valeur_max: Valeur,
}

/// What is known of the rolls of a given number of dice.
#[derive(Clone, Debug, PartialEq, Eq)]
pub struct StatsJet {
    /// The choices of the winning rolls.
    pub stats_choix: Vec<StatsChoix>,
    /// The number of rolls that offer nothing and lose the stake.
    pub nb_jets_perdants: u64,
    /// The number of rolls in all.
    pub nb_jets: u64,
}

/// The number of dice with which the player rolls again after taking `cout`
/// dice out of a hand of `nb_des`: those that are left, or a full hand when
/// none is left.
pub open spec fn des_a_relancer(nb_des: int, cout: int) -> int {
    if nb_des == cout {
        NB_DES_TOT as int
    } else {
        nb_des - cout
    }
}

/// What is noted of a combination offered by a roll of `nb_des` dice.
pub open spec fn possibilite_de(comb: Combinaison, nb_des: int) -> Possibilite {
    Possibilite {
        comb,
        valeur: comb.points() as Valeur,
        nb_des_relance: des_a_relancer(nb_des, comb.cout()) as usize,
    }
}

/// The combinations of a choice, without what is noted of them.
pub open spec fn combinaisons_de(choix: Seq<Possibilite>) -> Seq<Combinaison> {
    Seq::new(choix.len(), |j: int| choix[j].comb)
}

/// `valeur_max` is the value of one of the combinations, and none is worth
/// more.
pub open spec fn est_valeur_max(choix: Seq<Possibilite>, valeur_max: Valeur) -> bool {
    &&& exists|j: int| 0 <= j < choix.len() && (#[trigger] choix[j]).valeur == valeur_max
    &&& forall|j: int| 0 <= j < choix.len() ==> (#[trigger] choix[j]).valeur <= valeur_max
}

/// The choice offers `choix` to a player with `nb_des` dice in hand, with
/// what is noted of each combination and the value of the dearest.
pub open spec fn choix_annote(stats_choix: StatsChoix, choix: Seq<Combinaison>, nb_des: int) -> bool {
    &&& stats_choix.choix@.len() == choix.len()
    &&& forall|j: int|
        0 <= j < choix.len() ==> #[trigger] stats_choix.choix@[j] == possibilite_de(
            choix[j],
            nb_des,
        )
    &&& est_valeur_max(stats_choix.choix@, stats_choix.valeur_max)
}

/// The choice is one that a roll of `nb_des` dice offers, with what is noted
/// of its combinations and the number, not nil, of the rolls of number below
/// `limite` that offer it.
pub open spec fn choix_exact(stats_choix: StatsChoix, nb_des: nat, limite: int) -> bool {
    &&& stats_choix.choix@.len() > 0
    &&& choix_annote(stats_choix, combinaisons_de(stats_choix.choix@), nb_des as int)
    &&& 0 < stats_choix.nb_jets == nb_jets_offrant(
        nb_des,
        limite,
        combinaisons_de(stats_choix.choix@),
    )
}

/// The table is that of the rolls of `nb_des` dice: the number of rolls in
/// all and of those that are lost; each choice that a winning roll offers,
/// once, with the number of rolls that offer it and what is noted of its
/// combinations, the choices standing in the order in which they first come
/// up.
pub open spec fn jet_exact(jet: StatsJet, nb_des: nat) -> bool {
    let limite = nb_jets(nb_des) as int;
    &&& jet.nb_jets == limite
    &&& jet.nb_jets_perdants == nb_jets_offrant(nb_des, limite, Seq::empty())
    &&& forall|i: int|
        0 <= i < jet.stats_choix@.len() ==> choix_exact(#[trigger] jet.stats_choix@[i], nb_des, limite)
    &&& forall|choix: Seq<Combinaison>|
        choix.len() > 0 && #[trigger] nb_jets_offrant(nb_des, limite, choix) > 0 ==> exists|i: int|
            0 <= i < jet.stats_choix@.len() && combinaisons_de(
                (#[trigger] jet.stats_choix@[i]).choix@,
            ) == choix
    &&& forall|i: int, j: int|
        #![trigger jet.stats_choix@[i], jet.stats_choix@[j]]
        0 <= i < j < jet.stats_choix@.len() ==> vient_avant(
            nb_des,
            combinaisons_de(jet.stats_choix@[i].choix@),
            combinaisons_de(jet.stats_choix@[j].choix@),
        )
}

/// The number of rolls that the choices count together.
pub open spec fn total_gagnants(stats_choix: Seq<StatsChoix>) -> int
    decreases stats_choix.len(),
{
    if stats_choix.len() == 0 {
        0
    } else {
        total_gagnants(stats_choix.drop_last()) + stats_choix.last().nb_jets
    }
}

/// The rolls of `nb_des` dice are all counted, winning or lost, and each
/// reroll is one of one to six dice.
pub open spec fn jet_bien_forme(jet: StatsJet, nb_des: nat) -> bool {
    &&& jet.nb_jets == nb_jets(nb_des)
    &&& total_gagnants(jet.stats_choix@) + jet.nb_jets_perdants == jet.nb_jets
    &&& forall|i: int, j: int|
        0 <= i < jet.stats_choix@.len() && 0 <= j < jet.stats_choix@[i].choix@.len() ==> 1 <= (
        #[trigger] jet.stats_choix@[i].choix@[j]).nb_des_relance <= 6
}

/// One well-formed table for each number of dice from one to six.
pub open spec fn tables_bien_formees(tables: Seq<StatsJet>) -> bool {
    &&& tables.len() == 6
    &&& forall|n: int| 1 <= n <= 6 ==> jet_bien_forme(#[trigger] tables[n - 1], n as nat)
}

/// Each table is that of the rolls of its number of dice, from one to six.
pub open spec fn tables_exactes(tables: Seq<StatsJet>) -> bool {
    &&& tables.len() == 6
    &&& forall|n: int| 1 <= n <= 6 ==> jet_exact(#[trigger] tables[n - 1], n as nat)
}

/// Choices count no negative number of rolls.
pub proof fn lemma_total_gagnants_positif(stats_choix: Seq<StatsChoix>)
    ensures
        0 <= total_gagnants(stats_choix),
    decreases stats_choix.len(),
{
    if stats_choix.len() > 0 {
        lemma_total_gagnants_positif(stats_choix.drop_last());
    }
}

/// The rolls counted by the first choices of a table, one choice more.
pub proof fn lemma_total_gagnants_suivant(stats_choix: Seq<StatsChoix>, nb_choix: int)
    requires
        0 <= nb_choix < stats_choix.len(),
    ensures
        total_gagnants(stats_choix.take(nb_choix + 1)) == total_gagnants(
            stats_choix.take(nb_choix),
        ) + stats_choix[nb_choix].nb_jets,
{
    assert(stats_choix.take(nb_choix + 1).drop_last() =~= stats_choix.take(nb_choix));
}

/// The rolls counted by the first choices of a table are among those
/// counted by all of them.
pub proof fn lemma_total_gagnants_prefixe(stats_choix: Seq<StatsChoix>, nb_choix: int)
    requires
        0 <= nb_choix <= stats_choix.len(),
    ensures
        0 <= total_gagnants(stats_choix.take(nb_choix)) <= total_gagnants(stats_choix),
    decreases stats_choix.len() - nb_choix,
{
    lemma_total_gagnants_positif(stats_choix.take(nb_choix));
    if nb_choix < stats_choix.len() {
        lemma_total_gagnants_prefixe(stats_choix, nb_choix + 1);
        lemma_total_gagnants_suivant(stats_choix, nb_choix);
    } else {
        assert(stats_choix.take(nb_choix) =~= stats_choix);
    }
}

impl Possibilite {
    /// The combination by its name, with its value and the number of dice
    /// of the reroll, as in "Brelan2+1x1 (300pt, relance 2d)".
    pub open spec fn texte(self) -> Seq<char> {
        self.comb.texte() + " ("@ + en_chiffres(self.valeur as nat) + "pt, relance "@
            + en_chiffres(self.nb_des_relance as nat) + "d)"@
    }

    /// Writes the combination with what is noted of it.
    pub fn libelle(&self) -> (nom: String)
        ensures
            nom@ == self.texte(),
    {
        let mut nom = self.comb.libelle();
        nom.append(" (");
        let valeur = ecrire_nombre(self.valeur as u128);
        nom.append(valeur.as_str());
        nom.append("pt, relance ");
        let nb_des = ecrire_nombre(self.nb_des_relance as u128);
        nom.append(nb_des.as_str());
        nom.append("d)");
        nom
    }

    /// Notes of a combination taken out of a hand of `nb_des` dice what it
    /// is worth and with how many dice the player may roll again: with a
    /// full hand when the combination takes every die.
    pub fn new(comb: Combinaison, nb_des: usize) -> (poss: Possibilite)
        requires
            comb.faces_valides(),
            comb.points() <= Valeur::MAX,
            comb.cout() <= nb_des,
        ensures
            poss == possibilite_de(comb, nb_des as int),
    {
        let valeur = comb.valeur();
        let des_restants = nb_des - comb.nb_des();
        let nb_des_relance = if des_restants == 0 {
            NB_DES_TOT
        } else {
            des_restants
        };
        Possibilite { comb, valeur, nb_des_relance }
    }
}

/// What the roll of number `num` offers are combinations that `nb_des` dice
/// can make.
proof fn lemma_choix_du_jet_jouable(nb_des: nat, num: int, j: int)
    requires
        nb_des <= 6,
        0 <= num,
        0 <= j < choix_du_jet(nb_des, num).len(),
    ensures
        choix_du_jet(nb_des, num)[j].faces_valides(),
        1 <= choix_du_jet(nb_des, num)[j].cout() <= nb_des,
        50 <= choix_du_jet(nb_des, num)[j].points() <= 2000,
{
    let histo = histo_du_jet(nb_des, num);
    reveal(choix_du_jet);
    lemma_histo_du_jet(nb_des, num);
    lemma_combinaisons_en_ordre(histo);
    lemma_offre_jouable(histo, choix_du_jet(nb_des, num)[j]);
}

impl StatsChoix {
    /// Notes what is to be known of a choice that `nb_jets` rolls of
    /// `nb_des` dice offer.
    pub fn new(choix: &Vec<Combinaison>, nb_des: usize, nb_jets: u64) -> (stats_choix: StatsChoix)
        requires
            choix@.len() > 0,
            forall|j: int|
                0 <= j < choix@.len() ==> (#[trigger] choix@[j]).faces_valides() && choix@[j].points()
                    <= Valeur::MAX && choix@[j].cout() <= nb_des,
        ensures
            choix_annote(stats_choix, choix@, nb_des as int),
            combinaisons_de(stats_choix.choix@) == choix@,
            stats_choix.nb_jets == nb_jets,
    {
        let mut possibilites: Vec<Possibilite> = Vec::new();
        let mut valeur_max: Valeur = 0;
        let mut j: usize = 0;
        while j < choix.len()
            invariant
                j <= choix@.len(),
                possibilites@.len() == j,
                forall|k: int|
                    0 <= k < choix@.len() ==> (#[trigger] choix@[k]).faces_valides()
                        && choix@[k].points() <= Valeur::MAX && choix@[k].cout() <= nb_des,
                forall|k: int|
                    0 <= k < j ==> #[trigger] possibilites@[k] == possibilite_de(
                        choix@[k],
                        nb_des as int,
                    ),
                forall|k: int| 0 <= k < j ==> (#[trigger] possibilites@[k]).valeur <= valeur_max,
                j == 0 ==> valeur_max == 0,
                j > 0 ==> exists|k: int|
                    0 <= k < j && (#[trigger] possibilites@[k]).valeur == valeur_max,
            decreases choix@.len() - j,
        {
            let poss = Possibilite::new(choix[j], nb_des);
            let ghost avant = possibilites@;
            if poss.valeur >= valeur_max {
                valeur_max = poss.valeur;
            }
            possibilites.push(poss);
            proof {
                assert(possibilites@[j as int].valeur == poss.valeur);
                if poss.valeur < valeur_max {
                    let k = choose|k: int| 0 <= k < j && (#[trigger] avant[k]).valeur == valeur_max;
                    assert(possibilites@[k].valeur == valeur_max);
                }
            }
            j += 1;
        }
        assert(combinaisons_de(possibilites@) =~= choix@);
        StatsChoix { choix: possibilites, nb_jets, valeur_max }
    }
}

/// Each reroll that the choice leads to is one of one to six dice.
spec fn relances_valides(stats_choix: StatsChoix) -> bool {
    forall|j: int|
        0 <= j < stats_choix.choix@.len() ==> 1 <= (#[trigger] stats_choix.choix@[j]).nb_des_relance
            <= 6
}

/// The choice is that of one of the first `nb_vus` entries of the table.
#[verifier::opaque]
spec fn provient(table: Seq<ChoixCompte>, nb_vus: int, stats_choix: StatsChoix) -> bool {
    exists|u: int|
        0 <= u < nb_vus && (#[trigger] table[u]).choix@ == combinaisons_de(stats_choix.choix@)
}

/// One of the choices offers `choix`.
#[verifier::opaque]
spec fn present(stats_choix: Seq<StatsChoix>, choix: Seq<Combinaison>) -> bool {
    exists|i: int|
        0 <= i < stats_choix.len() && combinaisons_de((#[trigger] stats_choix[i]).choix@) == choix
}

/// One of the first `nb_vus` entries of the table is that of the lost rolls.
spec fn perdant_vu(table: Seq<ChoixCompte>, nb_vus: int) -> bool {
    exists|u: int| 0 <= u < nb_vus && (#[trigger] table[u]).choix@.len() == 0
}

/// What holds once the first `nb_vus` entries of the table of the rolls of
/// `nb_des` dice are gone through: the winning ones are noted, in their
/// order, and the lost rolls counted.
spec fn annotation_partielle(
    stats_choix: Seq<StatsChoix>,
    nb_jets_perdants: int,
    table: Seq<ChoixCompte>,
    nb_vus: int,
    nb_des: nat,
    limite: int,
) -> bool {
    &&& forall|i: int|
        0 <= i < stats_choix.len() ==> choix_exact(#[trigger] stats_choix[i], nb_des, limite)
            && relances_valides(stats_choix[i]) && provient(table, nb_vus, stats_choix[i])
    &&& forall|u: int|
        0 <= u < nb_vus && (#[trigger] table[u]).choix@.len() > 0 ==> present(
            stats_choix,
            table[u].choix@,
        )
    &&& forall|i: int, j: int|
        #![trigger stats_choix[i], stats_choix[j]]
        0 <= i < j < stats_choix.len() ==> vient_avant(
            nb_des,
            combinaisons_de(stats_choix[i].choix@),
            combinaisons_de(stats_choix[j].choix@),
        )
    &&& nb_jets_perdants == if perdant_vu(table, nb_vus) {
        nb_jets_offrant(nb_des, limite, Seq::empty()) as int
    } else {
        0
    }
    &&& total_gagnants(stats_choix) + nb_jets_perdants == total_jets(table.take(nb_vus))
}

/// Going past the entry of the lost rolls, their number is known.
proof fn lemma_annoter_perdant(
    stats_choix: Seq<StatsChoix>,
    nb_jets_perdants: int,
    table: Seq<ChoixCompte>,
    nb_vus: int,
    nb_des: nat,
    limite: int,
)
    requires
        repartition_exacte(table, nb_des, limite),
        annotation_partielle(stats_choix, nb_jets_perdants, table, nb_vus, nb_des, limite),
        0 <= nb_vus < table.len(),
        table[nb_vus].choix@.len() == 0,
    ensures
        annotation_partielle(
            stats_choix,
            table[nb_vus].nb_jets as int,
            table,
            nb_vus + 1,
            nb_des,
            limite,
        ),
{
    assert(table.take(nb_vus + 1).drop_last() =~= table.take(nb_vus));
    assert(table[nb_vus].choix@ =~= Seq::empty());
    assert(0 < table[nb_vus].nb_jets == nb_jets_offrant(nb_des, limite, table[nb_vus].choix@));
    if perdant_vu(table, nb_vus) {
        let u = choose|u: int| 0 <= u < nb_vus && (#[trigger] table[u]).choix@.len() == 0;
        assert(table[u].choix@ =~= Seq::empty());
        assert(vient_avant(nb_des, table[u].choix@, table[nb_vus].choix@));
    }
    assert(perdant_vu(table, nb_vus + 1));
    assert forall|i: int| 0 <= i < stats_choix.len() implies provient(
        table,
        nb_vus + 1,
        #[trigger] stats_choix[i],
    ) by {
        reveal(provient);
        assert(provient(table, nb_vus, stats_choix[i]));
        let u = choose|u: int|
            0 <= u < nb_vus && (#[trigger] table[u]).choix@ == combinaisons_de(
                stats_choix[i].choix@,
            );
        assert(0 <= u < nb_vus + 1);
    }
}

/// What is asked of a choice before it is noted for the entry of the table
/// at `nb_vus`.
spec fn choix_a_noter(
    nouveau: StatsChoix,
    table: Seq<ChoixCompte>,
    nb_vus: int,
    nb_des: nat,
) -> bool {
    &&& 0 <= nb_vus < table.len()
    &&& table[nb_vus].choix@.len() > 0
    &&& choix_annote(nouveau, table[nb_vus].choix@, nb_des as int)
    &&& combinaisons_de(nouveau.choix@) == table[nb_vus].choix@
    &&& nouveau.nb_jets == table[nb_vus].nb_jets
    &&& relances_valides(nouveau)
}

/// Once a winning choice is noted, each choice noted is exact and comes from
/// an entry gone through.
proof fn lemma_annoter_gagnant_exact(
    stats_choix: Seq<StatsChoix>,
    nouveau: StatsChoix,
    table: Seq<ChoixCompte>,
    nb_vus: int,
    nb_des: nat,
    limite: int,
)
    requires
        repartition_exacte(table, nb_des, limite),
        choix_a_noter(nouveau, table, nb_vus, nb_des),
        forall|i: int|
            0 <= i < stats_choix.len() ==> choix_exact(#[trigger] stats_choix[i], nb_des, limite)
                && relances_valides(stats_choix[i]) && provient(table, nb_vus, stats_choix[i]),
    ensures
        forall|i: int|
            0 <= i < stats_choix.push(nouveau).len() ==> choix_exact(
                #[trigger] stats_choix.push(nouveau)[i],
                nb_des,
                limite,
            ) && relances_valides(stats_choix.push(nouveau)[i]) && provient(
                table,
                nb_vus + 1,
                stats_choix.push(nouveau)[i],
            ),
{
    let apres = stats_choix.push(nouveau);
    let rang = stats_choix.len() as int;
    reveal(provient);
    assert(0 < table[nb_vus].nb_jets == nb_jets_offrant(nb_des, limite, table[nb_vus].choix@));
    assert forall|i: int| 0 <= i < apres.len() implies choix_exact(
        #[trigger] apres[i],
        nb_des,
        limite,
    ) && relances_valides(apres[i]) && provient(table, nb_vus + 1, apres[i]) by {
        if i < rang {
            assert(apres[i] == stats_choix[i]);
            assert(provient(table, nb_vus, stats_choix[i]));
            let u = choose|u: int|
                0 <= u < nb_vus && (#[trigger] table[u]).choix@ == combinaisons_de(
                    stats_choix[i].choix@,
                );
            assert(0 <= u < nb_vus + 1);
        } else {
            assert(apres[i] == nouveau);
            assert(table[nb_vus].choix@ == combinaisons_de(nouveau.choix@));
        }
    }
}

/// Once a winning choice is noted, each winning entry gone through is noted.
proof fn lemma_annoter_gagnant_present(
    stats_choix: Seq<StatsChoix>,
    nouveau: StatsChoix,
    table: Seq<ChoixCompte>,
    nb_vus: int,
)
    requires
        0 <= nb_vus < table.len(),
        combinaisons_de(nouveau.choix@) == table[nb_vus].choix@,
        forall|u: int|
            0 <= u < nb_vus && (#[trigger] table[u]).choix@.len() > 0 ==> present(
                stats_choix,
                table[u].choix@,
            ),
    ensures
        forall|u: int|
            0 <= u < nb_vus + 1 && (#[trigger] table[u]).choix@.len() > 0 ==> present(
                stats_choix.push(nouveau),
                table[u].choix@,
            ),
{
    let apres = stats_choix.push(nouveau);
    let rang = stats_choix.len() as int;
    reveal(present);
    assert forall|u: int|
        0 <= u < nb_vus + 1 && (#[trigger] table[u]).choix@.len() > 0 implies present(
        apres,
        table[u].choix@,
    ) by {
        if u < nb_vus {
            assert(present(stats_choix, table[u].choix@));
            let i = choose|i: int|
                0 <= i < stats_choix.len() && combinaisons_de((#[trigger] stats_choix[i]).choix@)
                    == table[u].choix@;
            assert(apres[i] == stats_choix[i]);
        } else {
            assert(combinaisons_de(apres[rang].choix@) == table[u].choix@);
        }
    }
}

/// Once a winning choice is noted after the others, the choices noted are
/// still in the order in which they first come up.
proof fn lemma_annoter_gagnant_ordre(
    stats_choix: Seq<StatsChoix>,
    nouveau: StatsChoix,
    table: Seq<ChoixCompte>,
    nb_vus: int,
    nb_des: nat,
    limite: int,
)
    requires
        repartition_exacte(table, nb_des, limite),
        0 <= nb_vus < table.len(),
        combinaisons_de(nouveau.choix@) == table[nb_vus].choix@,
        forall|i: int|
            0 <= i < stats_choix.len() ==> provient(table, nb_vus, #[trigger] stats_choix[i]),
        forall|i: int, j: int|
            #![trigger stats_choix[i], stats_choix[j]]
            0 <= i < j < stats_choix.len() ==> vient_avant(
                nb_des,
                combinaisons_de(stats_choix[i].choix@),
                combinaisons_de(stats_choix[j].choix@),
            ),
    ensures
        forall|i: int, j: int|
            #![trigger stats_choix.push(nouveau)[i], stats_choix.push(nouveau)[j]]
            0 <= i < j < stats_choix.push(nouveau).len() ==> vient_avant(
                nb_des,
                combinaisons_de(stats_choix.push(nouveau)[i].choix@),
                combinaisons_de(stats_choix.push(nouveau)[j].choix@),
            ),
{
    let apres = stats_choix.push(nouveau);
    let rang = stats_choix.len() as int;
    reveal(provient);
    assert forall|i: int, j: int|
        #![trigger apres[i], apres[j]]
        0 <= i < j < apres.len() implies vient_avant(
        nb_des,
        combinaisons_de(apres[i].choix@),
        combinaisons_de(apres[j].choix@),
    ) by {
        assert(apres[i] == stats_choix[i]);
        if j == rang {
            assert(apres[j] == nouveau);
            assert(provient(table, nb_vus, stats_choix[i]));
            let u = choose|u: int|
                0 <= u < nb_vus && (#[trigger] table[u]).choix@ == combinaisons_de(
                    stats_choix[i].choix@,
                );
            assert(vient_avant(nb_des, table[u].choix@, table[nb_vus].choix@));
        } else {
            assert(apres[j] == stats_choix[j]);
        }
    }
}

/// Going past the entry of a winning choice, the choice is noted after the
/// others.
proof fn lemma_annoter_gagnant(
    stats_choix: Seq<StatsChoix>,
    nouveau: StatsChoix,
    nb_jets_perdants: int,
    table: Seq<ChoixCompte>,
    nb_vus: int,
    nb_des: nat,
    limite: int,
)
    requires
        repartition_exacte(table, nb_des, limite),
        annotation_partielle(stats_choix, nb_jets_perdants, table, nb_vus, nb_des, limite),
        choix_a_noter(nouveau, table, nb_vus, nb_des),
    ensures
        annotation_partielle(
            stats_choix.push(nouveau),
            nb_jets_perdants,
            table,
            nb_vus + 1,
            nb_des,
            limite,
        ),
{
    let apres = stats_choix.push(nouveau);
    lemma_annoter_gagnant_exact(stats_choix, nouveau, table, nb_vus, nb_des, limite);
    lemma_annoter_gagnant_present(stats_choix, nouveau, table, nb_vus);
    lemma_annoter_gagnant_ordre(stats_choix, nouveau, table, nb_vus, nb_des, limite);
    assert(table.take(nb_vus + 1).drop_last() =~= table.take(nb_vus));
    assert(apres.drop_last() =~= stats_choix);
    if perdant_vu(table, nb_vus + 1) {
        let u = choose|u: int| 0 <= u < nb_vus + 1 && (#[trigger] table[u]).choix@.len() == 0;
        assert(0 <= u < nb_vus);
    }
    if perdant_vu(table, nb_vus) {
        let u = choose|u: int| 0 <= u < nb_vus && (#[trigger] table[u]).choix@.len() == 0;
        assert(0 <= u < nb_vus + 1);
    }
}

/// Once the whole table is gone through, the table of the rolls is drawn up.
proof fn lemma_annotation_complete(jet: StatsJet, table: Seq<ChoixCompte>, nb_des: nat)
    requires
        repartition_exacte(table, nb_des, nb_jets(nb_des) as int),
        total_jets(table) == nb_jets(nb_des),
        annotation_partielle(
            jet.stats_choix@,
            jet.nb_jets_perdants as int,
            table,
            table.len() as int,
            nb_des,
            nb_jets(nb_des) as int,
        ),
        jet.nb_jets == nb_jets(nb_des),
    ensures
        jet_exact(jet, nb_des),
        jet_bien_forme(jet, nb_des),
{
    let limite = nb_jets(nb_des) as int;
    let vide = Seq::<Combinaison>::empty();
    assert(table.take(table.len() as int) =~= table);
    if nb_jets_offrant(nb_des, limite, vide) > 0 {
        let u = choose|u: int| 0 <= u < table.len() && (#[trigger] table[u]).choix@ == vide;
        assert(table[u].choix@.len() == 0);
        assert(perdant_vu(table, table.len() as int));
    }
    assert forall|choix: Seq<Combinaison>|
        choix.len() > 0 && #[trigger] nb_jets_offrant(nb_des, limite, choix) > 0 implies exists|
        i: int,
    |
        0 <= i < jet.stats_choix@.len() && combinaisons_de((#[trigger] jet.stats_choix@[i]).choix@)
            == choix by {
        let u = choose|u: int| 0 <= u < table.len() && (#[trigger] table[u]).choix@ == choix;
        assert(present(jet.stats_choix@, table[u].choix@));
        reveal(present);
    }
    assert forall|i: int, j: int|
        0 <= i < jet.stats_choix@.len() && 0 <= j < jet.stats_choix@[i].choix@.len() implies 1 <= (
    #[trigger] jet.stats_choix@[i].choix@[j]).nb_des_relance <= 6 by {
        assert(relances_valides(jet.stats_choix@[i]));
    }
}

impl StatsJet {
    /// Draws up the table of the rolls of `nb_des` dice. The lost rolls are
    /// only counted: they lose the stake and leave no choice.
    pub fn new(nb_des: usize) -> (jet: StatsJet)
        requires
            nb_des <= 6,
        ensures
            jet_exact(jet, nb_des as nat),
            jet_bien_forme(jet, nb_des as nat),
    {
        let table = enumerer_choix(nb_des);
        let nb_jets = compter_jets(nb_des);
        let mut stats_choix: Vec<StatsChoix> = Vec::new();
        let mut nb_jets_perdants: u64 = 0;
        let mut t: usize = 0;
        let ghost n = nb_des as nat;
        let ghost limite = nb_jets as int;
        proof {
            assert(table@.take(0).len() == 0);
        }
        while t < table.len()
            invariant
                nb_des <= 6,
                n == nb_des,
                limite == crate::choix::nb_jets(n),
                t <= table@.len(),
                repartition_exacte(table@, n, limite),
                annotation_partielle(
                    stats_choix@,
                    nb_jets_perdants as int,
                    table@,
                    t as int,
                    n,
                    limite,
                ),
            decreases table@.len() - t,
        {
            let entree = &table[t];
            if entree.choix.len() == 0 {
                proof {
                    lemma_annoter_perdant(
                        stats_choix@,
                        nb_jets_perdants as int,
                        table@,
                        t as int,
                        n,
                        limite,
                    );
                }
                nb_jets_perdants = entree.nb_jets;
            } else {
                proof {
                    assert(0 < table@[t as int].nb_jets == nb_jets_offrant(
                        n,
                        limite,
                        entree.choix@,
                    ));
                    lemma_choix_offert(n, limite, entree.choix@);
                    let num = choose|num: int|
                        0 <= num < limite && #[trigger] choix_du_jet(n, num) == entree.choix@;
                    assert forall|j: int| 0 <= j < entree.choix@.len() implies (
                    #[trigger] entree.choix@[j]).faces_valides() && entree.choix@[j].points()
                        <= Valeur::MAX && 1 <= entree.choix@[j].cout() <= nb_des by {
                        lemma_choix_du_jet_jouable(n, num, j);
                    }
                }
                let nouveau = StatsChoix::new(&entree.choix, nb_des, entree.nb_jets);
                proof {
                    assert forall|j: int| 0 <= j < nouveau.choix@.len() implies 1 <= (
                    #[trigger] nouveau.choix@[j]).nb_des_relance <= 6 by {
                        assert(nouveau.choix@[j] == possibilite_de(entree.choix@[j], nb_des as int));
                        assert(1 <= entree.choix@[j].cout() <= nb_des);
                    }
                    assert(choix_a_noter(nouveau, table@, t as int, n));
                    lemma_annoter_gagnant(
                        stats_choix@,
                        nouveau,
                        nb_jets_perdants as int,
                        table@,
                        t as int,
                        n,
                        limite,
                    );
                }
                stats_choix.push(nouveau);
            }
            t += 1;
        }
        let jet = StatsJet { stats_choix, nb_jets_perdants, nb_jets };
        proof {
            lemma_annotation_complete(jet, table@, n);
        }
        jet
    }
}

/// What is known of the rolls of one to six dice, with the worths of the
/// states that were worked out so far.
pub struct Stats {
    stats_jets: Vec<StatsJet>,
    esperance: HashMap<u128, u64>,
    proba_fin: HashMap<u128, u64>,
}

impl Stats {
    /// The tables of the rolls, that of `n` dice at index `n - 1`.
    pub closed spec fn tables(&self) -> Seq<StatsJet> {
        self.stats_jets@
    }

    /// The worths that were worked out so far for an objective, each under
    /// the key of its state.
    pub closed spec fn acquis(&self, objectif: Objectif) -> Map<u128, u64> {
        match objectif {
            Objectif::Gain => self.esperance@,
            Objectif::Fin => self.proba_fin@,
        }
    }

    /// The tables are those of the rolls of one to six dice, and each worth
    /// that is kept is that of its state.
    pub closed spec fn bien_forme(&self) -> bool {
        &&& tables_bien_formees(self.stats_jets@)
        &&& tables_exactes(self.stats_jets@)
        &&& memo_exact(self.esperance@, self.stats_jets@, Objectif::Gain)
        &&& memo_exact(self.proba_fin@, self.stats_jets@, Objectif::Fin)
    }

    /// What being well formed says of the tables and of the worths kept.
    pub proof fn lemma_bien_forme(&self)
        requires
            self.bien_forme(),
        ensures
            tables_bien_formees(self.tables()),
            tables_exactes(self.tables()),
            memo_exact(self.acquis(Objectif::Gain), self.tables(), Objectif::Gain),
            memo_exact(self.acquis(Objectif::Fin), self.tables(), Objectif::Fin),
    {
    }

    /// Draws up the tables of the rolls of one to six dice. No worth is
    /// worked out yet.
    pub fn new() -> (stats: Stats)
        ensures
            stats.bien_forme(),
            tables_exactes(stats.tables()),
            stats.acquis(Objectif::Gain) == Map::<u128, u64>::empty(),
            stats.acquis(Objectif::Fin) == Map::<u128, u64>::empty(),
    {
        let mut stats_jets: Vec<StatsJet> = Vec::new();
        let mut nb_des: usize = 1;
        while nb_des <= NB_DES_TOT
            invariant
                1 <= nb_des <= 7,
                stats_jets@.len() == nb_des - 1,
                forall|n: int|
                    1 <= n < nb_des ==> jet_exact(#[trigger] stats_jets@[n - 1], n as nat)
                        && jet_bien_forme(stats_jets@[n - 1], n as nat),
            decreases 7 - nb_des,
        {
            let jet = StatsJet::new(nb_des);
            stats_jets.push(jet);
            nb_des += 1;
        }
        Stats { stats_jets, esperance: HashMap::new(), proba_fin: HashMap::new() }
    }

    /// The table of the rolls of `nb_des` dice.
    pub fn stats_jet(&self, nb_des: usize) -> (jet: &StatsJet)
        requires
            self.bien_forme(),
            1 <= nb_des <= 6,
        ensures
            *jet == self.tables()[nb_des - 1],
            jet_bien_forme(*jet, nb_des as nat),
            jet_exact(*jet, nb_des as nat),
    {
        &self.stats_jets[nb_des - 1]
    }

    /// The mean gain of a player who puts `mise` points at stake on a roll
    /// of `nb_des` dice: the expected stake, less the stake.
    pub fn gain_moyen(&mut self, score: Valeur, nb_des: usize, mise: Valeur) -> (gain: i64)
        requires
            old(self).bien_forme(),
            1 <= nb_des <= 6,
        ensures
            final(self).bien_forme(),
            final(self).tables() == old(self).tables(),
            memo_conserve(old(self).acquis(Objectif::Gain), final(self).acquis(Objectif::Gain)),
            final(self).acquis(Objectif::Fin) == old(self).acquis(Objectif::Fin),
            0 <= gain + mise * ECHELLE <= SCORE_MAX * ECHELLE,
            exists|relances: nat|
                {
                    &&& #[trigger] palier(
                        old(self).tables(),
                        Objectif::Gain,
                        score as int,
                        nb_des as int,
                        mise as int,
                        relances,
                    )
                    &&& forall|k: nat|
                        k < relances ==> !#[trigger] palier(
                            old(self).tables(),
                            Objectif::Gain,
                            score as int,
                            nb_des as int,
                            mise as int,
                            k,
                        )
                    &&& gain == valeur_bornee(
                        old(self).tables(),
                        Objectif::Gain,
                        score as int,
                        nb_des as int,
                        mise as int,
                        relances,
                    ) - mise * ECHELLE
                },
    {
        let esperance = self.esperance(score, nb_des, mise);
        esperance as i64 - (mise as i64) * (ECHELLE as i64)
    }

    /// The expected stake at the end of the turn of a player who makes it as
    /// large as possible, before a roll of `nb_des` dice with `mise` points
    /// at stake: what the roll is worth with as many rerolls as it takes for
    /// one more to add nothing.
    pub fn esperance(&mut self, score: Valeur, nb_des: usize, mise: Valeur) -> (esperance: u64)
        requires
            old(self).bien_forme(),
            1 <= nb_des <= 6,
        ensures
            final(self).bien_forme(),
            final(self).tables() == old(self).tables(),
            memo_conserve(old(self).acquis(Objectif::Gain), final(self).acquis(Objectif::Gain)),
            final(self).acquis(Objectif::Fin) == old(self).acquis(Objectif::Fin),
            esperance <= SCORE_MAX * ECHELLE,
            exists|relances: nat|
                {
                    &&& #[trigger] palier(
                        old(self).tables(),
                        Objectif::Gain,
                        score as int,
                        nb_des as int,
                        mise as int,
                        relances,
                    )
                    &&& forall|k: nat|
                        k < relances ==> !#[trigger] palier(
                            old(self).tables(),
                            Objectif::Gain,
                            score as int,
                            nb_des as int,
                            mise as int,
                            k,
                        )
                    &&& esperance == valeur_bornee(
                        old(self).tables(),
                        Objectif::Gain,
                        score as int,
                        nb_des as int,
                        mise as int,
                        relances,
                    )
                },
    {
        let mut num_relances: u64 = 0;
        let mut ancienne_esperance: u64 = 0;
        let ghost tables = self.tables();
        loop
            invariant
                self.bien_forme(),
                self.tables() == tables,
                old(self).tables() == tables,
                memo_conserve(old(self).acquis(Objectif::Gain), self.acquis(Objectif::Gain)),
                self.acquis(Objectif::Fin) == old(self).acquis(Objectif::Fin),
                1 <= nb_des <= 6,
                num_relances <= ancienne_esperance <= SCORE_MAX * ECHELLE,
                ancienne_esperance == valeur_precedente(
                    tables,
                    Objectif::Gain,
                    score as int,
                    nb_des as int,
                    mise as int,
                    num_relances as nat,
                ),
                forall|k: nat|
                    k < num_relances ==> !#[trigger] palier(
                        tables,
                        Objectif::Gain,
                        score as int,
                        nb_des as int,
                        mise as int,
                        k,
                    ),
            decreases SCORE_MAX * ECHELLE - ancienne_esperance,
        {
            let esperance = self.calcul_esperance(score, nb_des, mise, num_relances);
            proof {
                if num_relances > 0 {
                    lemma_valeur_croissante(
                        tables,
                        Objectif::Gain,
                        score as int,
                        nb_des as int,
                        mise as int,
                        (num_relances - 1) as nat,
                    );
                }
            }
            if esperance == ancienne_esperance {
                assert(palier(
                    tables,
                    Objectif::Gain,
                    score as int,
                    nb_des as int,
                    mise as int,
                    num_relances as nat,
                ));
                return esperance;
            }
            ancienne_esperance = esperance;
            num_relances += 1;
        }
    }

    /// The chance that the turn ends the game, for a player who makes it as
    /// large as possible: what the roll is worth with the fewest rerolls,
    /// below `max_relances`, of which the last adds nothing to a chance that
    /// is not nil, or else with `max_relances` rerolls. The chance may be
    /// larger with more rerolls than that.
    pub fn proba_fin(&mut self, score: Valeur, nb_des: usize, mise: Valeur, max_relances: usize) -> (proba: u64)
        requires
            old(self).bien_forme(),
            1 <= nb_des <= 6,
        ensures
            final(self).bien_forme(),
            final(self).tables() == old(self).tables(),
            memo_conserve(old(self).acquis(Objectif::Fin), final(self).acquis(Objectif::Fin)),
            final(self).acquis(Objectif::Gain) == old(self).acquis(Objectif::Gain),
            proba <= ECHELLE,
            exists|relances: nat|
                {
                    &&& relances <= max_relances
                    &&& proba == #[trigger] valeur_bornee(
                        old(self).tables(),
                        Objectif::Fin,
                        score as int,
                        nb_des as int,
                        mise as int,
                        relances,
                    )
                    &&& relances < max_relances ==> proba > 0 && palier(
                        old(self).tables(),
                        Objectif::Fin,
                        score as int,
                        nb_des as int,
                        mise as int,
                        relances,
                    )
                    &&& forall|k: nat|
                        k < relances ==> !(#[trigger] valeur_bornee(
                            old(self).tables(),
                            Objectif::Fin,
                            score as int,
                            nb_des as int,
                            mise as int,
                            k,
                        ) > 0 && palier(
                            old(self).tables(),
                            Objectif::Fin,
                            score as int,
                            nb_des as int,
                            mise as int,
                            k,
                        ))
                },
    {
        let ghost tables = self.tables();
        let limite = max_relances as u64;
        let mut ancienne_proba: u64 = 0;
        let mut num_relances: u64 = 0;
        while num_relances < limite
            invariant
                self.bien_forme(),
                self.tables() == tables,
                old(self).tables() == tables,
                memo_conserve(old(self).acquis(Objectif::Fin), self.acquis(Objectif::Fin)),
                self.acquis(Objectif::Gain) == old(self).acquis(Objectif::Gain),
                1 <= nb_des <= 6,
                num_relances <= limite == max_relances,
                ancienne_proba == valeur_precedente(
                    tables,
                    Objectif::Fin,
                    score as int,
                    nb_des as int,
                    mise as int,
                    num_relances as nat,
                ),
                forall|k: nat|
                    k < num_relances ==> !(#[trigger] valeur_bornee(
                        tables,
                        Objectif::Fin,
                        score as int,
                        nb_des as int,
                        mise as int,
                        k,
                    ) > 0 && palier(
                        tables,
                        Objectif::Fin,
                        score as int,
                        nb_des as int,
                        mise as int,
                        k,
                    )),
            decreases limite - num_relances,
        {
            let proba = self.calcul_proba_fin(score, nb_des, mise, num_relances);
            if proba > 0 && proba == ancienne_proba {
                return proba;
            }
            ancienne_proba = proba;
            num_relances += 1;
        }
        self.calcul_proba_fin(score, nb_des, mise, limite)
    }

    /// The expected stake when the player may roll again up to
    /// `max_relances` times after the roll.
    pub fn calcul_esperance(
        &mut self,
        score: Valeur,
        nb_des: usize,
        mise: Valeur,
        max_relances: u64,
    ) -> (esperance: u64)
        requires
            old(self).bien_forme(),
            1 <= nb_des <= 6,
        ensures
            final(self).bien_forme(),
            final(self).tables() == old(self).tables(),
            memo_etendu(
                old(self).acquis(Objectif::Gain),
                final(self).acquis(Objectif::Gain),
                max_relances + 1,
            ),
            final(self).acquis(Objectif::Fin) == old(self).acquis(Objectif::Fin),
            esperance <= SCORE_MAX * ECHELLE,
            esperance == valeur_bornee(
                old(self).tables(),
                Objectif::Gain,
                score as int,
                nb_des as int,
                mise as int,
                max_relances as nat,
            ),
    {
        calcul(
            &self.stats_jets,
            &mut self.esperance,
            Objectif::Gain,
            score,
            nb_des,
            mise,
            max_relances,
        )
    }

    /// The chance that the turn ends the game when the player may roll
    /// again up to `max_relances` times after the roll.
    pub fn calcul_proba_fin(
        &mut self,
        score: Valeur,
        nb_des: usize,
        mise: Valeur,
        max_relances: u64,
    ) -> (proba: u64)
        requires
            old(self).bien_forme(),
            1 <= nb_des <= 6,
        ensures
            final(self).bien_forme(),
            final(self).tables() == old(self).tables(),
            memo_etendu(
                old(self).acquis(Objectif::Fin),
                final(self).acquis(Objectif::Fin),
                max_relances + 1,
            ),
            final(self).acquis(Objectif::Gain) == old(self).acquis(Objectif::Gain),
            proba <= ECHELLE,
            proba == valeur_bornee(
                old(self).tables(),
                Objectif::Fin,
                score as int,
                nb_des as int,
                mise as int,
                max_relances as nat,
            ),
    {
        calcul(
            &self.stats_jets,
            &mut self.proba_fin,
            Objectif::Fin,
            score,
            nb_des,
            mise,
            max_relances,
        )
    }
}

} // verus!
