//! What a roll offers: from the number of dice that fell on each face, the
//! combinations between which a player may reasonably choose.

use vstd::prelude::*;
use crate::NB_FACES;
use crate::combinaison::Combinaison;
use crate::combinaison::brelan_double;

verus! {

/// A roll seen by face: how many dice fell on each of the six faces.
pub type HistogrammeFaces = [usize; NB_FACES];

/// The number of dice that a histogram counts.
pub open spec fn nb_des_histo(histo: Seq<usize>) -> int {
    histo[0] + histo[1] + histo[2] + histo[3] + histo[4] + histo[5]
}

/// A histogram of a roll of at most six dice.
pub open spec fn histo_valide(histo: Seq<usize>) -> bool {
    histo.len() == 6 && nb_des_histo(histo) <= 6
}

/// Every face shows exactly once.
pub open spec fn est_suite(histo: Seq<usize>) -> bool {
    histo[0] == 1 && histo[1] == 1 && histo[2] == 1 && histo[3] == 1 && histo[4] == 1 && histo[5]
        == 1
}

/// The number of pairs that can be made at once, face by face.
pub open spec fn nb_paires(histo: Seq<usize>) -> int {
    histo[0] / 2 + histo[1] / 2 + histo[2] / 2 + histo[3] / 2 + histo[4] / 2 + histo[5] / 2
}

/// The histogram once three dice of the face of index `idx_face` are taken out.
pub open spec fn sans_brelan(histo: Seq<usize>, idx_face: int) -> Seq<usize> {
    histo.update(idx_face, (histo[idx_face] - 3) as usize)
}

/// The number of ones that do not go into a triple of ones.
pub open spec fn nb_un_libres(histo: Seq<usize>) -> int {
    (histo[0] % 3) as int
}

/// The number of fives that do not go into a triple of fives.
pub open spec fn nb_cinq_libres(histo: Seq<usize>) -> int {
    (histo[4] % 3) as int
}

/// The offers of loose ones and fives when `nb_un` ones and `nb_cinq` fives
/// may be taken: first one more "one" at a time, then, with all those ones,
/// one more "five" at a time. A five is never offered while a one is left.
pub open spec fn faces_simples(nb_un: int, nb_cinq: int) -> Seq<Combinaison> {
    Seq::new(
        nb_un as nat,
        |i: int| Combinaison::FacesSimples { nb_un: (i + 1) as usize, nb_cinq: 0 },
    ) + Seq::new(
        nb_cinq as nat,
        |j: int| Combinaison::FacesSimples { nb_un: nb_un as usize, nb_cinq: (j + 1) as usize },
    )
}

/// The same offers of ones and fives, taken together with a triple of the
/// face of index `idx_face`.
pub open spec fn brelans_avec_simples(idx_face: int, nb_un: int, nb_cinq: int) -> Seq<
    Combinaison,
> {
    Seq::new(
        nb_un as nat,
        |i: int|
            Combinaison::BrelanSimple {
                idx_face: idx_face as usize,
                nb_un: (i + 1) as usize,
                nb_cinq: 0,
            },
    ) + Seq::new(
        nb_cinq as nat,
        |j: int|
            Combinaison::BrelanSimple {
                idx_face: idx_face as usize,
                nb_un: nb_un as usize,
                nb_cinq: (j + 1) as usize,
            },
    )
}

/// The double triple of the faces of indices `idx_face` and `seconde`, if
/// the second face is not before the first and still shows three times once
/// the triple of the first is out, `reste` being what is left then.
pub open spec fn second_brelan(reste: Seq<usize>, idx_face: int, seconde: int) -> Seq<Combinaison> {
    if idx_face <= seconde && reste[seconde] >= 3 {
        seq![brelan_double(idx_face, seconde)]
    } else {
        Seq::empty()
    }
}

/// The double triples that begin with the face of index `idx_face`, by
/// second face.
pub open spec fn seconds_brelans(reste: Seq<usize>, idx_face: int) -> Seq<Combinaison> {
    second_brelan(reste, idx_face, 0) + second_brelan(reste, idx_face, 1) + second_brelan(
        reste,
        idx_face,
        2,
    ) + second_brelan(reste, idx_face, 3) + second_brelan(reste, idx_face, 4) + second_brelan(
        reste,
        idx_face,
        5,
    )
}

/// What the triple of the face of index `idx_face` offers: the triple alone,
/// then each double triple that it begins, then the triple with the loose
/// ones and fives of the other dice.
pub open spec fn choix_du_brelan(histo: Seq<usize>, idx_face: int) -> Seq<Combinaison> {
    if histo[idx_face] < 3 {
        Seq::empty()
    } else {
        let reste = sans_brelan(histo, idx_face);
        seq![Combinaison::BrelanSimple { idx_face: idx_face as usize, nb_un: 0, nb_cinq: 0 }]
            + seconds_brelans(reste, idx_face) + brelans_avec_simples(
            idx_face,
            nb_un_libres(reste),
            nb_cinq_libres(reste),
        )
    }
}

/// What the triples offer, face by face.
pub open spec fn choix_des_brelans(histo: Seq<usize>) -> Seq<Combinaison> {
    choix_du_brelan(histo, 0) + choix_du_brelan(histo, 1) + choix_du_brelan(histo, 2)
        + choix_du_brelan(histo, 3) + choix_du_brelan(histo, 4) + choix_du_brelan(histo, 5)
}

/// The combinations between which a player may reasonably choose after a
/// roll of at most six dice, in the order in which they are listed: the
/// straight, the three pairs, what each triple offers, and the loose ones
/// and fives. Ones and fives that make a triple are never counted loose.
pub open spec fn combinaisons(histo: Seq<usize>) -> Seq<Combinaison> {
    (if est_suite(histo) {
        seq![Combinaison::Suite]
    } else {
        Seq::empty()
    }) + (if nb_paires(histo) == 3 {
        seq![Combinaison::TriplePaire]
    } else {
        Seq::empty()
    }) + choix_des_brelans(histo) + faces_simples(nb_un_libres(histo), nb_cinq_libres(histo))
}

/// The double triples that begin with the face of index `idx_face` and end
/// with a face of index below `nb_faces`.
spec fn seconds_brelans_avant(reste: Seq<usize>, idx_face: int, nb_faces: int) -> Seq<Combinaison>
    decreases nb_faces,
{
    if nb_faces <= 0 {
        Seq::empty()
    } else {
        seconds_brelans_avant(reste, idx_face, nb_faces - 1) + second_brelan(
            reste,
            idx_face,
            nb_faces - 1,
        )
    }
}

/// What the triples of the faces of index below `nb_faces` offer.
spec fn choix_des_brelans_avant(histo: Seq<usize>, nb_faces: int) -> Seq<Combinaison>
    decreases nb_faces,
{
    if nb_faces <= 0 {
        Seq::empty()
    } else {
        choix_des_brelans_avant(histo, nb_faces - 1) + choix_du_brelan(histo, nb_faces - 1)
    }
}

/// The double triples up to the last face are all of them.
proof fn lemma_seconds_brelans_tous(reste: Seq<usize>, idx_face: int)
    ensures
        seconds_brelans_avant(reste, idx_face, 6) == seconds_brelans(reste, idx_face),
{
    reveal_with_fuel(seconds_brelans_avant, 7);
    assert(seconds_brelans_avant(reste, idx_face, 6) =~= seconds_brelans(reste, idx_face));
}

/// What the triples of the faces up to the last offer is all that triples
/// offer.
proof fn lemma_choix_des_brelans_tous(histo: Seq<usize>)
    ensures
        choix_des_brelans_avant(histo, 6) == choix_des_brelans(histo),
{
    reveal_with_fuel(choix_des_brelans_avant, 7);
    assert(choix_des_brelans_avant(histo, 6) =~= choix_des_brelans(histo));
}

/// What the triple of the face of index `idx_face` makes of one offer of the
/// other dice: a second triple gives a double triple, unless its face comes
/// first; loose ones and fives join the triple.
spec fn suite_du_brelan(idx_face: int, interne: Combinaison) -> Seq<Combinaison> {
    match interne {
        Combinaison::BrelanSimple { idx_face: seconde, nb_un, nb_cinq } => if nb_un == 0 && nb_cinq
            == 0 && idx_face <= seconde {
            seq![brelan_double(idx_face, seconde as int)]
        } else {
            Seq::empty()
        },
        Combinaison::FacesSimples { nb_un, nb_cinq } => seq![
            Combinaison::BrelanSimple { idx_face: idx_face as usize, nb_un, nb_cinq },
        ],
        _ => Seq::empty(),
    }
}

/// What the triple of the face of index `idx_face` makes of the offers of the
/// other dice, in their order.
spec fn suites_du_brelan(idx_face: int, internes: Seq<Combinaison>) -> Seq<Combinaison>
    decreases internes.len(),
{
    if internes.len() == 0 {
        Seq::empty()
    } else {
        suites_du_brelan(idx_face, internes.drop_last()) + suite_du_brelan(
            idx_face,
            internes.last(),
        )
    }
}

/// An offer that three dice or fewer can make: a bare triple, or loose ones
/// and fives.
spec fn offre_de_reste(interne: Combinaison) -> bool {
    match interne {
        Combinaison::BrelanSimple { nb_un, nb_cinq, .. } => nb_un == 0 && nb_cinq == 0,
        Combinaison::FacesSimples { .. } => true,
        _ => false,
    }
}

/// A triple makes of the first `n` offers of loose ones and fives the first
/// `n` of its offers with them.
proof fn lemma_suites_des_simples(idx_face: int, nb_un: int, nb_cinq: int, n: int)
    requires
        0 <= idx_face < 6,
        0 <= nb_un <= 2,
        0 <= nb_cinq <= 2,
        0 <= n <= nb_un + nb_cinq,
    ensures
        suites_du_brelan(idx_face, faces_simples(nb_un, nb_cinq).take(n)) == brelans_avec_simples(
            idx_face,
            nb_un,
            nb_cinq,
        ).take(n),
    decreases n,
{
    let simples = faces_simples(nb_un, nb_cinq);
    let brelans = brelans_avec_simples(idx_face, nb_un, nb_cinq);
    if n == 0 {
        assert(simples.take(0).len() == 0);
        assert(brelans.take(0) =~= Seq::empty());
    } else {
        lemma_suites_des_simples(idx_face, nb_un, nb_cinq, n - 1);
        assert(simples.take(n).drop_last() =~= simples.take(n - 1));
        assert(simples.take(n).last() == simples[n - 1]);
        assert(brelans.take(n) =~= brelans.take(n - 1) + seq![brelans[n - 1]]);
    }
}

/// No double triple where no face from the first on shows three times.
proof fn lemma_pas_de_second_brelan(reste: Seq<usize>, idx_face: int, nb_faces: int)
    requires
        nb_faces <= 6,
        forall|g: int| idx_face <= g < nb_faces ==> reste[g] < 3,
    ensures
        seconds_brelans_avant(reste, idx_face, nb_faces) == Seq::<Combinaison>::empty(),
    decreases nb_faces,
{
    if nb_faces > 0 {
        lemma_pas_de_second_brelan(reste, idx_face, nb_faces - 1);
    }
}

/// One double triple where one face only shows three times, not before the
/// first.
proof fn lemma_un_second_brelan(reste: Seq<usize>, idx_face: int, seconde: int, nb_faces: int)
    requires
        reste.len() == 6,
        0 <= seconde < nb_faces <= 6,
        0 <= idx_face <= seconde,
        reste[seconde] >= 3,
        forall|g: int| 0 <= g < 6 && g != seconde ==> reste[g] < 3,
    ensures
        seconds_brelans_avant(reste, idx_face, nb_faces) == seq![brelan_double(idx_face, seconde)],
    decreases nb_faces,
{
    if nb_faces - 1 == seconde {
        lemma_pas_de_second_brelan(reste, idx_face, nb_faces - 1);
    } else {
        lemma_un_second_brelan(reste, idx_face, seconde, nb_faces - 1);
    }
}

/// Triples offer nothing where no face shows three times.
proof fn lemma_pas_de_brelan(histo: Seq<usize>, nb_faces: int)
    requires
        nb_faces <= 6,
        forall|g: int| 0 <= g < nb_faces ==> histo[g] < 3,
    ensures
        choix_des_brelans_avant(histo, nb_faces) == Seq::<Combinaison>::empty(),
    decreases nb_faces,
{
    if nb_faces > 0 {
        lemma_pas_de_brelan(histo, nb_faces - 1);
    }
}

/// Where one face only shows three times, what triples offer is what the
/// triple of that face offers.
proof fn lemma_un_brelan(histo: Seq<usize>, idx_face: int, nb_faces: int)
    requires
        0 <= idx_face < nb_faces <= 6,
        forall|g: int| 0 <= g < 6 && g != idx_face ==> histo[g] < 3,
    ensures
        choix_des_brelans_avant(histo, nb_faces) == choix_du_brelan(histo, idx_face),
    decreases nb_faces,
{
    if nb_faces - 1 == idx_face {
        lemma_pas_de_brelan(histo, nb_faces - 1);
    } else {
        lemma_un_brelan(histo, idx_face, nb_faces - 1);
    }
}

/// Three dice that show one face offer the bare triple of that face and
/// nothing else.
proof fn lemma_brelan_seul(reste: Seq<usize>, seconde: int)
    requires
        reste.len() == 6,
        0 <= seconde < 6,
        reste[seconde] == 3,
        forall|g: int| 0 <= g < 6 && g != seconde ==> reste[g] == 0,
    ensures
        combinaisons(reste) == seq![
            Combinaison::BrelanSimple { idx_face: seconde as usize, nb_un: 0, nb_cinq: 0 },
        ],
{
    let vide = sans_brelan(reste, seconde);
    assert(forall|g: int| 0 <= g < 6 ==> vide[g] == 0);
    lemma_pas_de_second_brelan(vide, seconde, 6);
    lemma_seconds_brelans_tous(vide, seconde);
    lemma_choix_des_brelans_tous(reste);
    assert(nb_un_libres(vide) == 0 && nb_cinq_libres(vide) == 0);
    assert(brelans_avec_simples(seconde, 0, 0) =~= Seq::empty());
    lemma_un_brelan(reste, seconde, 6);
    assert(nb_un_libres(reste) == 0 && nb_cinq_libres(reste) == 0);
    assert(faces_simples(0, 0) =~= Seq::empty());
    assert(!est_suite(reste));
    assert(nb_paires(reste) != 3);
}

/// What a triple makes of the offers of three dice that show one face.
proof fn lemma_suites_d_un_brelan(reste: Seq<usize>, idx_face: int, seconde: int)
    requires
        reste.len() == 6,
        0 <= idx_face < 6,
        0 <= seconde < 6,
        reste[seconde] == 3,
        forall|g: int| 0 <= g < 6 && g != seconde ==> reste[g] == 0,
    ensures
        forall|i: int|
            0 <= i < combinaisons(reste).len() ==> offre_de_reste(#[trigger] combinaisons(reste)[i]),
        suites_du_brelan(idx_face, combinaisons(reste)) == seconds_brelans_avant(reste, idx_face, 6)
            + brelans_avec_simples(idx_face, nb_un_libres(reste), nb_cinq_libres(reste)),
{
    let seul = Combinaison::BrelanSimple { idx_face: seconde as usize, nb_un: 0, nb_cinq: 0 };
    lemma_brelan_seul(reste, seconde);
    assert(seq![seul].drop_last() =~= Seq::empty());
    assert(suites_du_brelan(idx_face, seq![seul]) =~= suite_du_brelan(idx_face, seul)) by {
        reveal_with_fuel(suites_du_brelan, 2);
    }
    assert(nb_un_libres(reste) == 0 && nb_cinq_libres(reste) == 0);
    assert(brelans_avec_simples(idx_face, 0, 0) =~= Seq::empty());
    if idx_face <= seconde {
        lemma_un_second_brelan(reste, idx_face, seconde, 6);
    } else {
        lemma_pas_de_second_brelan(reste, idx_face, 6);
    }
}

/// What a triple makes of the offers of dice among which no face shows
/// three times.
proof fn lemma_suites_sans_brelan(reste: Seq<usize>, idx_face: int)
    requires
        reste.len() == 6,
        0 <= idx_face < 6,
        forall|g: int| 0 <= g < 6 ==> reste[g] < 3,
        nb_des_histo(reste) <= 3,
    ensures
        forall|i: int|
            0 <= i < combinaisons(reste).len() ==> offre_de_reste(#[trigger] combinaisons(reste)[i]),
        suites_du_brelan(idx_face, combinaisons(reste)) == seconds_brelans_avant(reste, idx_face, 6)
            + brelans_avec_simples(idx_face, nb_un_libres(reste), nb_cinq_libres(reste)),
{
    let nb_un = nb_un_libres(reste);
    let nb_cinq = nb_cinq_libres(reste);
    let simples = faces_simples(nb_un, nb_cinq);
    let brelans = brelans_avec_simples(idx_face, nb_un, nb_cinq);
    lemma_pas_de_brelan(reste, 6);
    lemma_choix_des_brelans_tous(reste);
    lemma_pas_de_second_brelan(reste, idx_face, 6);
    assert(!est_suite(reste));
    assert(nb_paires(reste) != 3);
    assert(combinaisons(reste) =~= simples);
    lemma_suites_des_simples(idx_face, nb_un, nb_cinq, nb_un + nb_cinq);
    assert(simples.take(nb_un + nb_cinq) =~= simples);
    assert(brelans.take(nb_un + nb_cinq) =~= brelans);
}

/// Once a triple is out of a hand of at most six dice, the other dice offer
/// only bare triples and loose ones and fives, and the triple turns these
/// into its double triples and its triples with ones and fives.
proof fn lemma_suites_du_reste(histo: Seq<usize>, idx_face: int)
    requires
        histo_valide(histo),
        0 <= idx_face < 6,
        histo[idx_face] >= 3,
    ensures
        forall|i: int|
            0 <= i < combinaisons(sans_brelan(histo, idx_face)).len() ==> offre_de_reste(
                #[trigger] combinaisons(sans_brelan(histo, idx_face))[i],
            ),
        suites_du_brelan(idx_face, combinaisons(sans_brelan(histo, idx_face))) == seconds_brelans_avant(
            sans_brelan(histo, idx_face),
            idx_face,
            6,
        ) + brelans_avec_simples(
            idx_face,
            nb_un_libres(sans_brelan(histo, idx_face)),
            nb_cinq_libres(sans_brelan(histo, idx_face)),
        ),
{
    let reste = sans_brelan(histo, idx_face);
    assert(nb_des_histo(reste) <= 3);
    if reste[0] >= 3 {
        lemma_suites_d_un_brelan(reste, idx_face, 0);
    } else if reste[1] >= 3 {
        lemma_suites_d_un_brelan(reste, idx_face, 1);
    } else if reste[2] >= 3 {
        lemma_suites_d_un_brelan(reste, idx_face, 2);
    } else if reste[3] >= 3 {
        lemma_suites_d_un_brelan(reste, idx_face, 3);
    } else if reste[4] >= 3 {
        lemma_suites_d_un_brelan(reste, idx_face, 4);
    } else if reste[5] >= 3 {
        lemma_suites_d_un_brelan(reste, idx_face, 5);
    } else {
        lemma_suites_sans_brelan(reste, idx_face);
    }
}

/// What the triple of a face offers is the triple, then what it makes of
/// the offers of the dice that it leaves, which are bare triples and loose
/// ones and fives.
proof fn lemma_choix_du_brelan(histo: Seq<usize>, idx_face: int)
    requires
        histo_valide(histo),
        0 <= idx_face < 6,
        histo[idx_face] >= 3,
    ensures
        forall|i: int|
            0 <= i < combinaisons(sans_brelan(histo, idx_face)).len() ==> offre_de_reste(
                #[trigger] combinaisons(sans_brelan(histo, idx_face))[i],
            ),
        choix_du_brelan(histo, idx_face) == seq![
            Combinaison::BrelanSimple { idx_face: idx_face as usize, nb_un: 0, nb_cinq: 0 },
        ] + suites_du_brelan(idx_face, combinaisons(sans_brelan(histo, idx_face))),
{
    let reste = sans_brelan(histo, idx_face);
    let seul = seq![
        Combinaison::BrelanSimple { idx_face: idx_face as usize, nb_un: 0, nb_cinq: 0 },
    ];
    let doubles = seconds_brelans(reste, idx_face);
    let avec = brelans_avec_simples(idx_face, nb_un_libres(reste), nb_cinq_libres(reste));
    lemma_suites_du_reste(histo, idx_face);
    lemma_seconds_brelans_tous(reste, idx_face);
    assert(seul + doubles + avec =~= seul + (doubles + avec));
}

/// Lists after `choix` what the triple of the face of index `idx_face`
/// makes of the offers of the dice that it leaves.
fn adjoindre_au_brelan(
    choix: &mut Vec<Combinaison>,
    idx_face: usize,
    choix_internes: &Vec<Combinaison>,
)
    requires
        idx_face < 6,
        forall|i: int|
            0 <= i < choix_internes.len() ==> offre_de_reste(#[trigger] choix_internes@[i]),
    ensures
        final(choix)@ == old(choix)@ + suites_du_brelan(idx_face as int, choix_internes@),
{
    let ghost debut = choix@;
    let mut k: usize = 0;
    proof {
        assert(choix_internes@.take(0).len() == 0);
        assert(choix@ =~= debut + suites_du_brelan(idx_face as int, choix_internes@.take(0)));
    }
    while k < choix_internes.len()
        invariant
            k <= choix_internes.len(),
            idx_face < 6,
            forall|i: int|
                0 <= i < choix_internes.len() ==> offre_de_reste(#[trigger] choix_internes@[i]),
            choix@ == debut + suites_du_brelan(idx_face as int, choix_internes@.take(k as int)),
        decreases choix_internes.len() - k,
    {
        let combi = choix_internes[k];
        proof {
            assert(choix_internes@.take(k + 1).drop_last() =~= choix_internes@.take(k as int));
            assert(choix_internes@.take(k + 1).last() == combi);
            assert(offre_de_reste(choix_internes@[k as int]));
        }
        let ghost avant = choix@;
        match combi {
            Combinaison::BrelanSimple { idx_face: idx_face_2, .. } => {
                // A pair of triples is listed under its smaller face only.
                if idx_face_2 >= idx_face {
                    choix.push(Combinaison::BrelanDouble { idx_faces: [idx_face, idx_face_2] });
                    proof {
                        let c = brelan_double(idx_face as int, idx_face_2 as int);
                        assert(c->BrelanDouble_idx_faces =~= [idx_face, idx_face_2]);
                    }
                }
            },
            Combinaison::FacesSimples { nb_un, nb_cinq } => {
                choix.push(Combinaison::BrelanSimple { idx_face, nb_un, nb_cinq });
            },
            _ => {
                // Three dice or fewer offer nothing else.
                assert(false);
            },
        }
        assert(choix@ =~= avant + suite_du_brelan(idx_face as int, combi));
        k += 1;
    }
    assert(choix_internes@.take(k as int) =~= choix_internes@);
}

/// Lists what the triple of the face of index `idx_face` offers: the triple,
/// and what it makes of the offers of the dice that it leaves.
fn enumerer_choix_du_brelan(histo: HistogrammeFaces, idx_face: usize) -> (choix: Vec<Combinaison>)
    requires
        histo_valide(histo@),
        idx_face < 6,
        histo@[idx_face as int] >= 3,
    ensures
        choix@ == choix_du_brelan(histo@, idx_face as int),
    decreases nb_des_histo(histo@), 0int,
{
    let mut choix: Vec<Combinaison> = Vec::new();
    choix.push(Combinaison::BrelanSimple { idx_face, nb_un: 0, nb_cinq: 0 });
    assert(choix@ =~= seq![Combinaison::BrelanSimple { idx_face, nb_un: 0, nb_cinq: 0 }]);

    let mut histo_sans_brelan = histo;
    histo_sans_brelan[idx_face] = histo[idx_face] - 3;
    assert(histo_sans_brelan@ =~= sans_brelan(histo@, idx_face as int));
    let choix_internes = enumerer_combinaisons(histo_sans_brelan);
    proof {
        lemma_choix_du_brelan(histo@, idx_face as int);
    }
    adjoindre_au_brelan(&mut choix, idx_face, &choix_internes);
    choix
}

/// Lists the combinations between which a player may reasonably choose after
/// a roll with the given histogram.
pub fn enumerer_combinaisons(histo: HistogrammeFaces) -> (choix: Vec<Combinaison>)
    requires
        histo_valide(histo@),
    ensures
        choix@ == combinaisons(histo@),
    decreases nb_des_histo(histo@), 1int,
{
    let mut choix: Vec<Combinaison> = Vec::new();

    // The straight.
    if histo[0] == 1 && histo[1] == 1 && histo[2] == 1 && histo[3] == 1 && histo[4] == 1
        && histo[5] == 1 {
        choix.push(Combinaison::Suite);
    }

    // The three pairs.
    let num_paires: usize = histo[0] / 2 + histo[1] / 2 + histo[2] / 2 + histo[3] / 2 + histo[4]
        / 2 + histo[5] / 2;
    if num_paires == 3 {
        choix.push(Combinaison::TriplePaire);
    }
    let ghost debut = choix@;

    // The triples.
    let mut idx_face: usize = 0;
    while idx_face < NB_FACES
        invariant
            idx_face <= NB_FACES,
            histo_valide(histo@),
            choix@ == debut + choix_des_brelans_avant(histo@, idx_face as int),
        decreases NB_FACES - idx_face,
    {
        let ghost avant = choix@;
        if histo[idx_face] >= 3 {
            let mut du_brelan = enumerer_choix_du_brelan(histo, idx_face);
            choix.append(&mut du_brelan);
        }
        assert(choix@ =~= avant + choix_du_brelan(histo@, idx_face as int));
        idx_face += 1;
    }

    proof {
        lemma_choix_des_brelans_tous(histo@);
    }

    // The loose ones and fives. Taking a five while a one is left is never
    // offered, nor counting three ones or three fives otherwise than as a
    // triple.
    let ghost milieu = choix@;
    let max_un = histo[0] % 3;
    let max_cinq = histo[4] % 3;
    let ghost simples = faces_simples(max_un as int, max_cinq as int);
    let mut nb_un: usize = 0;
    while nb_un < max_un
        invariant
            nb_un <= max_un < 3,
            max_cinq < 3,
            simples == faces_simples(max_un as int, max_cinq as int),
            choix@ == milieu + simples.take(nb_un as int),
        decreases max_un - nb_un,
    {
        nb_un += 1;
        choix.push(Combinaison::FacesSimples { nb_un, nb_cinq: 0 });
        assert(simples.take(nb_un as int) =~= simples.take(nb_un - 1) + seq![simples[nb_un - 1]]);
    }
    let mut nb_cinq: usize = 0;
    while nb_cinq < max_cinq
        invariant
            nb_cinq <= max_cinq < 3,
            max_un < 3,
            simples == faces_simples(max_un as int, max_cinq as int),
            choix@ == milieu + simples.take(max_un + nb_cinq),
        decreases max_cinq - nb_cinq,
    {
        nb_cinq += 1;
        choix.push(Combinaison::FacesSimples { nb_un: max_un, nb_cinq });
        assert(simples.take(max_un + nb_cinq) =~= simples.take(max_un + nb_cinq - 1) + seq![
            simples[max_un + nb_cinq - 1],
        ]);
    }
    assert(simples.take(max_un + max_cinq) =~= simples);
    assert(choix@ =~= combinaisons(histo@));
    choix
}

/// The place of a combination in the order in which the offers of a roll
/// are listed: the straight, the three pairs, then face by face each triple
/// with what goes with it, then the loose ones and fives.
pub open spec fn rang(comb: Combinaison) -> int {
    match comb {
        Combinaison::Suite => 0,
        Combinaison::TriplePaire => 1,
        Combinaison::BrelanDouble { idx_faces } => 2 + 16 * idx_faces[0] + 1 + idx_faces[1],
        Combinaison::BrelanSimple { idx_face, nb_un, nb_cinq } => 2 + 16 * idx_face + if nb_un == 0
            && nb_cinq == 0 {
            0int
        } else {
            7 + 3 * nb_un + nb_cinq
        },
        Combinaison::FacesSimples { nb_un, nb_cinq } => 98 + 3 * nb_un + nb_cinq,
    }
}

/// The dice of the histogram offer `nb_un` loose ones and `nb_cinq` loose
/// fives: some of the ones that make no triple and no five, or all those
/// ones and some of the fives that make no triple.
pub open spec fn simples_offerts(histo: Seq<usize>, nb_un: int, nb_cinq: int) -> bool {
    ||| 1 <= nb_un <= nb_un_libres(histo) && nb_cinq == 0
    ||| nb_un == nb_un_libres(histo) && 1 <= nb_cinq <= nb_cinq_libres(histo)
}

/// The dice of the histogram make the combination, under the rules by which
/// offers are made.
pub open spec fn offerte(histo: Seq<usize>, comb: Combinaison) -> bool {
    match comb {
        Combinaison::Suite => est_suite(histo),
        Combinaison::TriplePaire => nb_paires(histo) == 3,
        Combinaison::BrelanDouble { idx_faces } => {
            &&& idx_faces[0] <= idx_faces[1] < 6
            &&& histo[idx_faces[0] as int] >= 3
            &&& sans_brelan(histo, idx_faces[0] as int)[idx_faces[1] as int] >= 3
        },
        Combinaison::BrelanSimple { idx_face, nb_un, nb_cinq } => {
            &&& idx_face < 6
            &&& histo[idx_face as int] >= 3
            &&& (nb_un == 0 && nb_cinq == 0) || simples_offerts(
                sans_brelan(histo, idx_face as int),
                nb_un as int,
                nb_cinq as int,
            )
        },
        Combinaison::FacesSimples { nb_un, nb_cinq } => simples_offerts(
            histo,
            nb_un as int,
            nb_cinq as int,
        ),
    }
}

/// Every combination of the list is made by the dice of the histogram, and
/// they stand in their order, at places from `debut` to below `fin`.
spec fn en_ordre(liste: Seq<Combinaison>, histo: Seq<usize>, debut: int, fin: int) -> bool {
    &&& forall|i: int|
        0 <= i < liste.len() ==> offerte(histo, #[trigger] liste[i]) && debut <= rang(liste[i])
            < fin
    &&& forall|i: int, j: int|
        0 <= i < j < liste.len() ==> rang(#[trigger] liste[i]) < rang(#[trigger] liste[j])
}

/// Two lists in order, the places of the first before those of the second,
/// make one list in order when put end to end.
proof fn lemma_en_ordre_bout_a_bout(
    liste: Seq<Combinaison>,
    suite: Seq<Combinaison>,
    histo: Seq<usize>,
    debut: int,
    milieu: int,
    fin: int,
)
    requires
        en_ordre(liste, histo, debut, milieu),
        en_ordre(suite, histo, milieu, fin),
        debut <= milieu <= fin,
    ensures
        en_ordre(liste + suite, histo, debut, fin),
{
    let tout = liste + suite;
    assert forall|i: int| 0 <= i < tout.len() implies offerte(histo, #[trigger] tout[i]) && debut
        <= rang(tout[i]) < fin by {
        if i < liste.len() {
            assert(tout[i] == liste[i]);
        } else {
            assert(tout[i] == suite[i - liste.len()]);
        }
    }
    assert forall|i: int, j: int| 0 <= i < j < tout.len() implies rang(#[trigger] tout[i]) < rang(
        #[trigger] tout[j],
    ) by {
        if i < liste.len() {
            assert(tout[i] == liste[i]);
        } else {
            assert(tout[i] == suite[i - liste.len()]);
        }
        if j < liste.len() {
            assert(tout[j] == liste[j]);
        } else {
            assert(tout[j] == suite[j - liste.len()]);
        }
    }
}

/// The offers of loose ones and fives are in order, after every other.
proof fn lemma_faces_simples_en_ordre(histo: Seq<usize>)
    requires
        histo.len() == 6,
    ensures
        en_ordre(faces_simples(nb_un_libres(histo), nb_cinq_libres(histo)), histo, 98, 200),
{
}

/// The offers of a triple with loose ones and fives are in order, last among
/// those of the triple.
proof fn lemma_brelans_avec_simples_en_ordre(histo: Seq<usize>, idx_face: int)
    requires
        histo.len() == 6,
        0 <= idx_face < 6,
        histo[idx_face] >= 3,
    ensures
        en_ordre(
            brelans_avec_simples(
                idx_face,
                nb_un_libres(sans_brelan(histo, idx_face)),
                nb_cinq_libres(sans_brelan(histo, idx_face)),
            ),
            histo,
            2 + 16 * idx_face + 7,
            2 + 16 * idx_face + 16,
        ),
{
}

/// The double triples that a face begins are in order, by second face.
proof fn lemma_seconds_brelans_en_ordre(histo: Seq<usize>, idx_face: int, nb_faces: int)
    requires
        histo.len() == 6,
        0 <= idx_face < 6,
        histo[idx_face] >= 3,
        0 <= nb_faces <= 6,
    ensures
        en_ordre(
            seconds_brelans_avant(sans_brelan(histo, idx_face), idx_face, nb_faces),
            histo,
            2 + 16 * idx_face + 1,
            2 + 16 * idx_face + 1 + nb_faces,
        ),
    decreases nb_faces,
{
    if nb_faces > 0 {
        let reste = sans_brelan(histo, idx_face);
        let seconde = nb_faces - 1;
        let base = 2 + 16 * idx_face + 1;
        lemma_seconds_brelans_en_ordre(histo, idx_face, seconde);
        let dernier: Seq<Combinaison> = if idx_face <= seconde && reste[seconde] >= 3 {
            seq![brelan_double(idx_face, seconde)]
        } else {
            Seq::empty()
        };
        assert(en_ordre(dernier, histo, base + seconde, base + nb_faces));
        lemma_en_ordre_bout_a_bout(
            seconds_brelans_avant(reste, idx_face, seconde),
            dernier,
            histo,
            base,
            base + seconde,
            base + nb_faces,
        );
    }
}

/// What the triple of a face offers is in order, at the places of that face.
proof fn lemma_choix_du_brelan_en_ordre(histo: Seq<usize>, idx_face: int)
    requires
        histo.len() == 6,
        0 <= idx_face < 6,
    ensures
        en_ordre(choix_du_brelan(histo, idx_face), histo, 2 + 16 * idx_face, 2 + 16 * idx_face + 16),
{
    if histo[idx_face] >= 3 {
        let reste = sans_brelan(histo, idx_face);
        let base = 2 + 16 * idx_face;
        let seul = seq![
            Combinaison::BrelanSimple { idx_face: idx_face as usize, nb_un: 0, nb_cinq: 0 },
        ];
        let doubles = seconds_brelans_avant(reste, idx_face, 6);
        let avec = brelans_avec_simples(idx_face, nb_un_libres(reste), nb_cinq_libres(reste));
        assert(en_ordre(seul, histo, base, base + 1));
        lemma_seconds_brelans_en_ordre(histo, idx_face, 6);
        lemma_seconds_brelans_tous(reste, idx_face);
        lemma_brelans_avec_simples_en_ordre(histo, idx_face);
        lemma_en_ordre_bout_a_bout(seul, doubles, histo, base, base + 1, base + 7);
        lemma_en_ordre_bout_a_bout(seul + doubles, avec, histo, base, base + 7, base + 16);
    }
}

/// What the triples of the first faces offer is in order, face by face.
proof fn lemma_choix_des_brelans_en_ordre(histo: Seq<usize>, nb_faces: int)
    requires
        histo.len() == 6,
        0 <= nb_faces <= 6,
    ensures
        en_ordre(choix_des_brelans_avant(histo, nb_faces), histo, 2, 2 + 16 * nb_faces),
    decreases nb_faces,
{
    if nb_faces > 0 {
        lemma_choix_des_brelans_en_ordre(histo, nb_faces - 1);
        lemma_choix_du_brelan_en_ordre(histo, nb_faces - 1);
        lemma_en_ordre_bout_a_bout(
            choix_des_brelans_avant(histo, nb_faces - 1),
            choix_du_brelan(histo, nb_faces - 1),
            histo,
            2,
            2 + 16 * (nb_faces - 1),
            2 + 16 * nb_faces,
        );
    }
}

/// The offers of a roll are combinations that its dice make, and they are
/// listed in their order, none of them twice.
pub proof fn lemma_combinaisons_en_ordre(histo: Seq<usize>)
    requires
        histo.len() == 6,
    ensures
        forall|i: int|
            0 <= i < combinaisons(histo).len() ==> offerte(histo, #[trigger] combinaisons(histo)[i]),
        forall|i: int, j: int|
            0 <= i < j < combinaisons(histo).len() ==> rang(#[trigger] combinaisons(histo)[i])
                < rang(#[trigger] combinaisons(histo)[j]),
{
    let suite: Seq<Combinaison> = if est_suite(histo) {
        seq![Combinaison::Suite]
    } else {
        Seq::empty()
    };
    let paires: Seq<Combinaison> = if nb_paires(histo) == 3 {
        seq![Combinaison::TriplePaire]
    } else {
        Seq::empty()
    };
    let brelans = choix_des_brelans_avant(histo, 6);
    let simples = faces_simples(nb_un_libres(histo), nb_cinq_libres(histo));
    assert(en_ordre(suite, histo, 0, 1));
    assert(en_ordre(paires, histo, 1, 2));
    lemma_choix_des_brelans_en_ordre(histo, 6);
    lemma_choix_des_brelans_tous(histo);
    lemma_faces_simples_en_ordre(histo);
    lemma_en_ordre_bout_a_bout(suite, paires, histo, 0, 1, 2);
    lemma_en_ordre_bout_a_bout(suite + paires, brelans, histo, 0, 2, 98);
    lemma_en_ordre_bout_a_bout(suite + paires + brelans, simples, histo, 0, 98, 200);
    assert(en_ordre(combinaisons(histo), histo, 0, 200));
}

/// What one of two lists holds, the two lists put end to end hold.
proof fn lemma_contenu_bout_a_bout(
    liste: Seq<Combinaison>,
    suite: Seq<Combinaison>,
    comb: Combinaison,
)
    ensures
        liste.contains(comb) || suite.contains(comb) ==> (liste + suite).contains(comb),
{
    if liste.contains(comb) {
        let i = choose|i: int| 0 <= i < liste.len() && liste[i] == comb;
        assert((liste + suite)[i] == comb);
    } else if suite.contains(comb) {
        let i = choose|i: int| 0 <= i < suite.len() && suite[i] == comb;
        assert((liste + suite)[liste.len() + i] == comb);
    }
}

/// Loose ones and fives that may be taken are among the offers of them.
proof fn lemma_faces_simples_completes(nb_un_max: int, nb_cinq_max: int, nb_un: int, nb_cinq: int)
    requires
        0 <= nb_un <= usize::MAX,
        0 <= nb_cinq <= usize::MAX,
        0 <= nb_un_max,
        0 <= nb_cinq_max,
        (1 <= nb_un <= nb_un_max && nb_cinq == 0) || (nb_un == nb_un_max && 1 <= nb_cinq
            <= nb_cinq_max),
    ensures
        faces_simples(nb_un_max, nb_cinq_max).contains(
            Combinaison::FacesSimples { nb_un: nb_un as usize, nb_cinq: nb_cinq as usize },
        ),
{
    let simples = faces_simples(nb_un_max, nb_cinq_max);
    let comb = Combinaison::FacesSimples { nb_un: nb_un as usize, nb_cinq: nb_cinq as usize };
    if nb_cinq == 0 {
        assert(simples[nb_un - 1] == comb);
    } else {
        assert(simples[nb_un_max + nb_cinq - 1] == comb);
    }
}

/// Loose ones and fives that may be taken with a triple are among its offers
/// with them.
proof fn lemma_brelans_avec_simples_complets(
    idx_face: int,
    nb_un_max: int,
    nb_cinq_max: int,
    nb_un: int,
    nb_cinq: int,
)
    requires
        0 <= idx_face < 6,
        0 <= nb_un <= usize::MAX,
        0 <= nb_cinq <= usize::MAX,
        0 <= nb_un_max,
        0 <= nb_cinq_max,
        (1 <= nb_un <= nb_un_max && nb_cinq == 0) || (nb_un == nb_un_max && 1 <= nb_cinq
            <= nb_cinq_max),
    ensures
        brelans_avec_simples(idx_face, nb_un_max, nb_cinq_max).contains(
            Combinaison::BrelanSimple {
                idx_face: idx_face as usize,
                nb_un: nb_un as usize,
                nb_cinq: nb_cinq as usize,
            },
        ),
{
    let brelans = brelans_avec_simples(idx_face, nb_un_max, nb_cinq_max);
    let comb = Combinaison::BrelanSimple {
        idx_face: idx_face as usize,
        nb_un: nb_un as usize,
        nb_cinq: nb_cinq as usize,
    };
    if nb_cinq == 0 {
        assert(brelans[nb_un - 1] == comb);
    } else {
        assert(brelans[nb_un_max + nb_cinq - 1] == comb);
    }
}

/// A double triple that can be made is among those that its first face
/// begins.
proof fn lemma_seconds_brelans_complets(
    reste: Seq<usize>,
    idx_face: int,
    seconde: int,
    nb_faces: int,
)
    requires
        0 <= idx_face <= seconde < nb_faces <= 6,
        reste[seconde] >= 3,
    ensures
        seconds_brelans_avant(reste, idx_face, nb_faces).contains(brelan_double(idx_face, seconde)),
    decreases nb_faces,
{
    let avant = seconds_brelans_avant(reste, idx_face, nb_faces - 1);
    let dernier: Seq<Combinaison> = if idx_face <= nb_faces - 1 && reste[nb_faces - 1] >= 3 {
        seq![brelan_double(idx_face, nb_faces - 1)]
    } else {
        Seq::empty()
    };
    if seconde == nb_faces - 1 {
        assert(dernier[0] == brelan_double(idx_face, seconde));
    } else {
        lemma_seconds_brelans_complets(reste, idx_face, seconde, nb_faces - 1);
    }
    lemma_contenu_bout_a_bout(avant, dernier, brelan_double(idx_face, seconde));
}

/// What the triple of a face offers is among what the triples offer.
proof fn lemma_choix_des_brelans_complets(
    histo: Seq<usize>,
    idx_face: int,
    nb_faces: int,
    comb: Combinaison,
)
    requires
        0 <= idx_face < nb_faces <= 6,
        choix_du_brelan(histo, idx_face).contains(comb),
    ensures
        choix_des_brelans_avant(histo, nb_faces).contains(comb),
    decreases nb_faces,
{
    if idx_face < nb_faces - 1 {
        lemma_choix_des_brelans_complets(histo, idx_face, nb_faces - 1, comb);
    }
    lemma_contenu_bout_a_bout(
        choix_des_brelans_avant(histo, nb_faces - 1),
        choix_du_brelan(histo, nb_faces - 1),
        comb,
    );
}

/// Every combination that the dice of a roll make, under the rules by which
/// offers are made, is among the offers of the roll.
pub proof fn lemma_combinaisons_completes(histo: Seq<usize>, comb: Combinaison)
    requires
        histo.len() == 6,
        offerte(histo, comb),
    ensures
        combinaisons(histo).contains(comb),
{
    let suite: Seq<Combinaison> = if est_suite(histo) {
        seq![Combinaison::Suite]
    } else {
        Seq::empty()
    };
    let paires: Seq<Combinaison> = if nb_paires(histo) == 3 {
        seq![Combinaison::TriplePaire]
    } else {
        Seq::empty()
    };
    let brelans = choix_des_brelans_avant(histo, 6);
    let simples = faces_simples(nb_un_libres(histo), nb_cinq_libres(histo));
    lemma_choix_des_brelans_tous(histo);
    match comb {
        Combinaison::Suite => {
            assert(suite[0] == comb);
        },
        Combinaison::TriplePaire => {
            assert(paires[0] == comb);
        },
        Combinaison::BrelanDouble { idx_faces } => {
            let f = idx_faces[0] as int;
            let reste = sans_brelan(histo, f);
            let seul = seq![Combinaison::BrelanSimple { idx_face: f as usize, nb_un: 0, nb_cinq: 0 }];
            let doubles = seconds_brelans_avant(reste, f, 6);
            let avec = brelans_avec_simples(f, nb_un_libres(reste), nb_cinq_libres(reste));
            lemma_seconds_brelans_tous(reste, f);
            lemma_seconds_brelans_complets(reste, f, idx_faces[1] as int, 6);
            assert(brelan_double(f, idx_faces[1] as int)->BrelanDouble_idx_faces =~= idx_faces);
            lemma_contenu_bout_a_bout(seul, doubles, comb);
            lemma_contenu_bout_a_bout(seul + doubles, avec, comb);
            lemma_choix_des_brelans_complets(histo, f, 6, comb);
        },
        Combinaison::BrelanSimple { idx_face, nb_un, nb_cinq } => {
            let f = idx_face as int;
            let reste = sans_brelan(histo, f);
            let seul = seq![Combinaison::BrelanSimple { idx_face, nb_un: 0, nb_cinq: 0 }];
            let doubles = seconds_brelans_avant(reste, f, 6);
            let avec = brelans_avec_simples(f, nb_un_libres(reste), nb_cinq_libres(reste));
            lemma_seconds_brelans_tous(reste, f);
            if nb_un == 0 && nb_cinq == 0 {
                assert(seul[0] == comb);
            } else {
                lemma_brelans_avec_simples_complets(
                    f,
                    nb_un_libres(reste),
                    nb_cinq_libres(reste),
                    nb_un as int,
                    nb_cinq as int,
                );
            }
            lemma_contenu_bout_a_bout(seul, doubles, comb);
            lemma_contenu_bout_a_bout(seul + doubles, avec, comb);
            lemma_choix_des_brelans_complets(histo, f, 6, comb);
        },
        Combinaison::FacesSimples { nb_un, nb_cinq } => {
            lemma_faces_simples_completes(
                nb_un_libres(histo),
                nb_cinq_libres(histo),
                nb_un as int,
                nb_cinq as int,
            );
        },
    }
    lemma_contenu_bout_a_bout(suite, paires, comb);
    lemma_contenu_bout_a_bout(suite + paires, brelans, comb);
    lemma_contenu_bout_a_bout(suite + paires + brelans, simples, comb);
}

/// The dice that show one face, or two, are among the dice of the roll.
proof fn lemma_faces_dans_le_total(histo: Seq<usize>, idx_face: int, autre: int)
    requires
        histo.len() == 6,
        0 <= idx_face < 6,
        0 <= autre < 6,
    ensures
        histo[idx_face] <= nb_des_histo(histo),
        idx_face != autre ==> histo[idx_face] + histo[autre] <= nb_des_histo(histo),
        histo[idx_face] >= 3 ==> nb_des_histo(sans_brelan(histo, idx_face)) == nb_des_histo(histo)
            - 3,
{
}

/// A combination that the dice of a roll of at most six dice make names
/// faces of a die, takes no more dice than were rolled, and at least one,
/// and is worth two thousand points at most.
pub proof fn lemma_offre_jouable(histo: Seq<usize>, comb: Combinaison)
    requires
        histo_valide(histo),
        offerte(histo, comb),
    ensures
        comb.faces_valides(),
        1 <= comb.cout() <= nb_des_histo(histo),
        50 <= comb.points() <= 2000,
{
    match comb {
        Combinaison::Suite => {},
        Combinaison::TriplePaire => {},
        Combinaison::BrelanDouble { idx_faces } => {
            lemma_faces_dans_le_total(histo, idx_faces[0] as int, idx_faces[1] as int);
        },
        Combinaison::BrelanSimple { idx_face, nb_un, nb_cinq } => {
            let reste = sans_brelan(histo, idx_face as int);
            lemma_faces_dans_le_total(histo, idx_face as int, 0);
            lemma_faces_dans_le_total(reste, 0, 4);
            assert(nb_un_libres(reste) <= reste[0] && nb_un_libres(reste) <= 2);
            assert(nb_cinq_libres(reste) <= reste[4] && nb_cinq_libres(reste) <= 2);
        },
        Combinaison::FacesSimples { nb_un, nb_cinq } => {
            lemma_faces_dans_le_total(histo, 0, 4);
            assert(nb_un_libres(histo) <= histo[0] && nb_un_libres(histo) <= 2);
            assert(nb_cinq_libres(histo) <= histo[4] && nb_cinq_libres(histo) <= 2);
        },
    }
}

/// Two lists in order that hold the same combinations are the same list.
proof fn lemma_listes_en_ordre_egales(liste: Seq<Combinaison>, autre: Seq<Combinaison>)
    requires
        forall|i: int, j: int|
            0 <= i < j < liste.len() ==> rang(#[trigger] liste[i]) < rang(#[trigger] liste[j]),
        forall|i: int, j: int|
            0 <= i < j < autre.len() ==> rang(#[trigger] autre[i]) < rang(#[trigger] autre[j]),
        forall|comb: Combinaison| liste.contains(comb) <==> autre.contains(comb),
    ensures
        liste == autre,
    decreases liste.len(),
{
    if liste.len() == 0 {
        if autre.len() > 0 {
            assert(autre.contains(autre[0]));
            assert(liste.contains(autre[0]));
        }
        assert(liste =~= autre);
    } else {
        let dernier = liste.last();
        assert(liste.contains(dernier));
        assert(autre.contains(dernier));
        let j = choose|j: int| 0 <= j < autre.len() && autre[j] == dernier;
        assert(autre.contains(autre.last()));
        assert(liste.contains(autre.last()));
        let i = choose|i: int| 0 <= i < liste.len() && liste[i] == autre.last();
        assert(j == autre.len() - 1);
        assert(dernier == autre.last());
        let debut = liste.drop_last();
        let autre_debut = autre.drop_last();
        assert forall|comb: Combinaison| debut.contains(comb) <==> autre_debut.contains(
            comb,
        ) by {
            if debut.contains(comb) {
                let k = choose|k: int| 0 <= k < debut.len() && debut[k] == comb;
                assert(liste[k] == comb);
                assert(liste.contains(comb));
                let l = choose|l: int| 0 <= l < autre.len() && autre[l] == comb;
                assert(l < autre.len() - 1);
                assert(autre_debut[l] == comb);
            }
            if autre_debut.contains(comb) {
                let k = choose|k: int| 0 <= k < autre_debut.len() && autre_debut[k] == comb;
                assert(autre[k] == comb);
                assert(autre.contains(comb));
                let l = choose|l: int| 0 <= l < liste.len() && liste[l] == comb;
                assert(l < liste.len() - 1);
                assert(debut[l] == comb);
            }
        }
        lemma_listes_en_ordre_egales(debut, autre_debut);
        assert(liste =~= debut.push(dernier));
        assert(autre =~= autre_debut.push(dernier));
    }
}

/// Two rolls that offer the same combinations, in whatever order they are
/// found, give the same list of offers.
pub proof fn lemma_choix_canonique(histo: Seq<usize>, autre: Seq<usize>)
    requires
        histo.len() == 6,
        autre.len() == 6,
        combinaisons(histo).to_multiset() == combinaisons(autre).to_multiset(),
    ensures
        combinaisons(histo) == combinaisons(autre),
{
    lemma_combinaisons_en_ordre(histo);
    lemma_combinaisons_en_ordre(autre);
    assert forall|comb: Combinaison|
        combinaisons(histo).contains(comb) <==> combinaisons(autre).contains(comb) by {
        vstd::seq_lib::to_multiset_contains(combinaisons(histo), comb);
        vstd::seq_lib::to_multiset_contains(combinaisons(autre), comb);
    }
    lemma_listes_en_ordre_egales(combinaisons(histo), combinaisons(autre));
}

/// The number of rolls of `nb_des` dice, told apart die by die: six to the
/// power `nb_des`, the powers up to the sixth being written out.
pub open spec fn nb_jets(nb_des: nat) -> nat
    decreases nb_des,
{
    if nb_des == 0 {
        1
    } else if nb_des == 1 {
        6
    } else if nb_des == 2 {
        36
    } else if nb_des == 3 {
        216
    } else if nb_des == 4 {
        1296
    } else if nb_des == 5 {
        7776
    } else if nb_des == 6 {
        46656
    } else {
        6 * nb_jets((nb_des - 1) as nat)
    }
}

/// The histogram of the roll of number `num` among those of `nb_des` dice.
/// The number is read in base six, one digit for each die, a digit being the
/// index of the face on which that die fell.
pub open spec fn histo_du_jet(nb_des: nat, num: int) -> Seq<usize>
    decreases nb_des,
{
    if nb_des == 0 {
        Seq::new(6, |f: int| 0usize)
    } else {
        let autres = histo_du_jet((nb_des - 1) as nat, num / 6);
        autres.update(num % 6, (autres[num % 6] + 1) as usize)
    }
}

/// What the roll of number `num` among those of `nb_des` dice offers.
#[verifier::opaque]
pub open spec fn choix_du_jet(nb_des: nat, num: int) -> Seq<Combinaison> {
    combinaisons(histo_du_jet(nb_des, num))
}

/// Among the rolls of `nb_des` dice of number below `limite`, how many offer
/// exactly `choix`.
pub open spec fn nb_jets_offrant(nb_des: nat, limite: int, choix: Seq<Combinaison>) -> nat
    decreases limite,
{
    if limite <= 0 {
        0
    } else {
        let avant = nb_jets_offrant(nb_des, limite - 1, choix);
        if choix_du_jet(nb_des, limite - 1) == choix {
            avant + 1
        } else {
            avant
        }
    }
}

/// A choice that a roll may put before the player, with the number of rolls
/// that do so. An empty choice is a lost roll.
#[derive(Clone, Debug, PartialEq, Eq)]
pub struct ChoixCompte {
    /// The combinations on offer.
    pub choix: Vec<Combinaison>,
    /// How many rolls offer them.
    pub nb_jets: u64,
}

/// The number of rolls that a table counts in all.
pub open spec fn total_jets(table: Seq<ChoixCompte>) -> int
    decreases table.len(),
{
    if table.len() == 0 {
        0
    } else {
        total_jets(table.drop_last()) + table.last().nb_jets
    }
}

/// Among the rolls of `nb_des` dice, taken by number, one offers `choix`
/// before any offers `autre`.
pub open spec fn vient_avant(nb_des: nat, choix: Seq<Combinaison>, autre: Seq<Combinaison>) -> bool {
    exists|num: int|
        #![trigger nb_jets_offrant(nb_des, num, choix)]
        nb_jets_offrant(nb_des, num, choix) > 0 && nb_jets_offrant(nb_des, num, autre) == 0
}

/// The table holds each choice that some roll of `nb_des` dice of number
/// below `limite` offers, once, with the number of those rolls that offer it,
/// the choices standing in the order in which they first come up.
pub open spec fn repartition_exacte(table: Seq<ChoixCompte>, nb_des: nat, limite: int) -> bool {
    &&& forall|i: int|
        0 <= i < table.len() ==> 0 < (#[trigger] table[i]).nb_jets == nb_jets_offrant(
            nb_des,
            limite,
            table[i].choix@,
        )
    &&& forall|choix: Seq<Combinaison>| #[trigger]
        nb_jets_offrant(nb_des, limite, choix) > 0 ==> exists|i: int|
            0 <= i < table.len() && (#[trigger] table[i]).choix@ == choix
    &&& forall|i: int, j: int|
        #![trigger table[i], table[j]]
        0 <= i < j < table.len() ==> vient_avant(nb_des, table[i].choix@, table[j].choix@)
}

/// A roll of `nb_des` dice counts `nb_des` dice.
pub proof fn lemma_histo_du_jet(nb_des: nat, num: int)
    requires
        0 <= num,
        nb_des <= 6,
    ensures
        histo_du_jet(nb_des, num).len() == 6,
        nb_des_histo(histo_du_jet(nb_des, num)) == nb_des,
    decreases nb_des,
{
    if nb_des > 0 {
        lemma_histo_du_jet((nb_des - 1) as nat, num / 6);
    }
}

/// The number of rolls that offer a choice only grows with the limit, and
/// stays within it.
proof fn lemma_nb_jets_offrant_croissant(
    nb_des: nat,
    limite: int,
    plus_loin: int,
    choix: Seq<Combinaison>,
)
    requires
        limite <= plus_loin,
    ensures
        nb_jets_offrant(nb_des, limite, choix) <= nb_jets_offrant(nb_des, plus_loin, choix),
        nb_jets_offrant(nb_des, limite, choix) <= if limite < 0 {
            0
        } else {
            limite
        },
    decreases plus_loin + if limite < 0 { 0 - limite } else { limite },
{
    if limite < plus_loin {
        lemma_nb_jets_offrant_croissant(nb_des, limite, plus_loin - 1, choix);
    } else if limite > 0 {
        lemma_nb_jets_offrant_croissant(nb_des, limite - 1, plus_loin - 1, choix);
    }
}

/// Six to the power `nb_des`.
pub fn compter_jets(nb_des: usize) -> (n: u64)
    requires
        nb_des <= 6,
    ensures
        n == nb_jets(nb_des as nat),
        n <= 46656,
{
    let mut n: u64 = 1;
    let mut k: usize = 0;
    while k < nb_des
        invariant
            k <= nb_des <= 6,
            n == nb_jets(k as nat),
        decreases nb_des - k,
    {
        n = n * 6;
        k += 1;
    }
    n
}

/// Counts the dice of a roll face by face, the roll being given by its
/// number among the rolls of `nb_des` dice.
pub fn histogramme_du_jet(nb_des: usize, num: u64) -> (histo: HistogrammeFaces)
    requires
        nb_des <= 6,
    ensures
        histo@ == histo_du_jet(nb_des as nat, num as int),
        histo_valide(histo@),
{
    let mut reste = num;
    let mut histo: HistogrammeFaces = [0;6];
    let mut k: usize = 0;
    proof {
        lemma_histo_du_jet(nb_des as nat, num as int);
    }
    while k < nb_des
        invariant
            k <= nb_des <= 6,
            histo@.len() == 6,
            histo_du_jet(nb_des as nat, num as int).len() == 6,
            nb_des_histo(histo_du_jet(nb_des as nat, num as int)) == nb_des,
            histo_du_jet((nb_des - k) as nat, reste as int).len() == 6,
            forall|f: int|
                0 <= f < 6 ==> histo@[f] + #[trigger] histo_du_jet(
                    (nb_des - k) as nat,
                    reste as int,
                )[f] == histo_du_jet(nb_des as nat, num as int)[f],
        decreases nb_des - k,
    {
        let idx_face = (reste % 6) as usize;
        proof {
            let cible = histo_du_jet(nb_des as nat, num as int);
            let courant = histo_du_jet((nb_des - k) as nat, reste as int);
            let suivant = histo_du_jet((nb_des - k - 1) as nat, reste as int / 6);
            lemma_histo_du_jet((nb_des - k - 1) as nat, reste as int / 6);
            lemma_histo_du_jet((nb_des - k) as nat, reste as int);
            assert(courant == suivant.update(
                idx_face as int,
                (suivant[idx_face as int] + 1) as usize,
            ));
            assert forall|f: int| 0 <= f < 6 implies histo@[f] + courant[f] == cible[f]
                && courant[f] == suivant[f] + if f == idx_face {
                1int
            } else {
                0int
            } by {}
            assert(histo@[idx_face as int] < cible[idx_face as int] <= 6);
        }
        histo[idx_face] = histo[idx_face] + 1;
        reste = reste / 6;
        k += 1;
    }
    assert forall|f: int| 0 <= f < 6 implies histo@[f] == histo_du_jet(
        nb_des as nat,
        num as int,
    )[f] by {
        assert(histo_du_jet(0, reste as int)[f] == 0);
    }
    assert(histo@ =~= histo_du_jet(nb_des as nat, num as int));
    histo
}

/// Whether two choices hold the same combinations in the same order.
pub fn memes_choix(choix: &Vec<Combinaison>, autre: &Vec<Combinaison>) -> (r: bool)
    ensures
        r == (choix@ == autre@),
{
    if choix.len() != autre.len() {
        return false;
    }
    let mut k: usize = 0;
    while k < choix.len()
        invariant
            k <= choix.len() == autre.len(),
            forall|i: int| 0 <= i < k ==> choix@[i] == autre@[i],
        decreases choix.len() - k,
    {
        if !choix[k].egale(&autre[k]) {
            assert(choix@[k as int] != autre@[k as int]);
            return false;
        }
        k += 1;
    }
    assert(choix@ =~= autre@);
    true
}

/// The total of a table depends on its counts alone.
proof fn lemma_total_jets_egal(table: Seq<ChoixCompte>, autre: Seq<ChoixCompte>)
    requires
        table.len() == autre.len(),
        forall|i: int| 0 <= i < table.len() ==> table[i].nb_jets == autre[i].nb_jets,
    ensures
        total_jets(table) == total_jets(autre),
    decreases table.len(),
{
    if table.len() > 0 {
        lemma_total_jets_egal(table.drop_last(), autre.drop_last());
    }
}

/// Counting one more roll under one choice adds one to the total.
proof fn lemma_total_jets_plus_un(avant: Seq<ChoixCompte>, apres: Seq<ChoixCompte>, rang: int)
    requires
        apres.len() == avant.len(),
        0 <= rang < avant.len(),
        forall|i: int|
            0 <= i < avant.len() ==> apres[i].nb_jets == avant[i].nb_jets + if i == rang {
                1int
            } else {
                0int
            },
    ensures
        total_jets(apres) == total_jets(avant) + 1,
    decreases avant.len(),
{
    if rang == avant.len() - 1 {
        lemma_total_jets_egal(avant.drop_last(), apres.drop_last());
    } else {
        lemma_total_jets_plus_un(avant.drop_last(), apres.drop_last(), rang);
    }
}

/// The table stays exact when the roll of number `num` is counted: under the
/// choice at `rang` where the table holds what the roll offers, else under a
/// new choice at its end.
proof fn lemma_compter_un_jet(
    avant: Seq<ChoixCompte>,
    apres: Seq<ChoixCompte>,
    nb_des: nat,
    num: int,
    rang: int,
)
    requires
        0 <= num,
        repartition_exacte(avant, nb_des, num),
        total_jets(avant) == num,
        0 <= rang <= avant.len(),
        forall|i: int| 0 <= i < rang ==> avant[i].choix@ != choix_du_jet(nb_des, num),
        rang < avant.len() ==> avant[rang].choix@ == choix_du_jet(nb_des, num) && apres.len()
            == avant.len(),
        rang == avant.len() ==> apres.len() == avant.len() + 1 && apres[rang].choix@
            == choix_du_jet(nb_des, num) && apres[rang].nb_jets == 1,
        forall|i: int|
            0 <= i < avant.len() ==> apres[i].choix@ == avant[i].choix@ && apres[i].nb_jets
                == avant[i].nb_jets + if i == rang {
                1int
            } else {
                0int
            },
    ensures
        repartition_exacte(apres, nb_des, num + 1),
        total_jets(apres) == num + 1,
{
    let offert = choix_du_jet(nb_des, num);
    assert forall|i: int| 0 <= i < apres.len() implies 0 < (#[trigger] apres[i]).nb_jets
        == nb_jets_offrant(nb_des, num + 1, apres[i].choix@) by {
        if i < avant.len() {
            assert(avant[i].nb_jets == nb_jets_offrant(nb_des, num, avant[i].choix@));
            if rang < avant.len() && i != rang {
                if i < rang {
                    assert(vient_avant(nb_des, avant[i].choix@, avant[rang].choix@));
                } else {
                    assert(vient_avant(nb_des, avant[rang].choix@, avant[i].choix@));
                }
            }
        } else {
            if nb_jets_offrant(nb_des, num, offert) > 0 {
                let k = choose|k: int| 0 <= k < avant.len() && (#[trigger] avant[k]).choix@ == offert;
                assert(false);
            }
        }
    }
    assert forall|choix: Seq<Combinaison>| #[trigger]
        nb_jets_offrant(nb_des, num + 1, choix) > 0 implies exists|i: int|
        0 <= i < apres.len() && (#[trigger] apres[i]).choix@ == choix by {
        if nb_jets_offrant(nb_des, num, choix) > 0 {
            let k = choose|k: int| 0 <= k < avant.len() && (#[trigger] avant[k]).choix@ == choix;
            assert(apres[k].choix@ == choix);
        } else {
            assert(apres[rang].choix@ == choix);
        }
    }
    assert forall|i: int, j: int|
        #![trigger apres[i], apres[j]]
        0 <= i < j < apres.len() implies vient_avant(nb_des, apres[i].choix@, apres[j].choix@) by {
        if j < avant.len() {
            assert(vient_avant(nb_des, avant[i].choix@, avant[j].choix@));
        } else {
            assert(avant[i].nb_jets == nb_jets_offrant(nb_des, num, avant[i].choix@));
            if nb_jets_offrant(nb_des, num, offert) > 0 {
                let k = choose|k: int| 0 <= k < avant.len() && (#[trigger] avant[k]).choix@ == offert;
                assert(false);
            }
        }
    }
    if rang < avant.len() {
        lemma_total_jets_plus_un(avant, apres, rang);
    } else {
        assert(apres.drop_last().len() == avant.len());
        lemma_total_jets_egal(avant, apres.drop_last());
    }
}

/// Where the table holds `choix`: the index of the first entry that does, or
/// the length of the table if none does.
fn chercher_choix(table: &Vec<ChoixCompte>, choix: &Vec<Combinaison>) -> (rang: usize)
    ensures
        rang <= table.len(),
        forall|i: int| 0 <= i < rang ==> table@[i].choix@ != choix@,
        rang < table.len() ==> table@[rang as int].choix@ == choix@,
{
    let mut rang: usize = 0;
    while rang < table.len()
        invariant
            rang <= table.len(),
            forall|i: int| 0 <= i < rang ==> table@[i].choix@ != choix@,
        decreases table.len() - rang,
    {
        if memes_choix(&table[rang].choix, choix) {
            return rang;
        }
        rang += 1;
    }
    rang
}

/// Lists the choices that a roll of `nb_des` dice may put before the player,
/// each with the number of rolls that do so, out of six to the power
/// `nb_des` rolls that are equally likely. The empty choice stands for the
/// lost rolls.
pub fn enumerer_choix(nb_des: usize) -> (table: Vec<ChoixCompte>)
    requires
        nb_des <= 6,
    ensures
        repartition_exacte(table@, nb_des as nat, nb_jets(nb_des as nat) as int),
        total_jets(table@) == nb_jets(nb_des as nat),
{
    let nb_comb = compter_jets(nb_des);
    let mut table: Vec<ChoixCompte> = Vec::new();
    let mut num_comb: u64 = 0;
    while num_comb < nb_comb
        invariant
            nb_des <= 6,
            num_comb <= nb_comb <= 46656,
            repartition_exacte(table@, nb_des as nat, num_comb as int),
            total_jets(table@) == num_comb,
        decreases nb_comb - num_comb,
    {
        let histo = histogramme_du_jet(nb_des, num_comb);
        let choix = enumerer_combinaisons(histo);
        proof {
            reveal(choix_du_jet);
        }
        let rang = chercher_choix(&table, &choix);
        let ghost avant = table@;
        if rang < table.len() {
            let nb = table[rang].nb_jets;
            proof {
                lemma_nb_jets_offrant_croissant(
                    nb_des as nat,
                    num_comb as int,
                    num_comb as int,
                    choix@,
                );
            }
            table.set(rang, ChoixCompte { choix, nb_jets: nb + 1 });
        } else {
            table.push(ChoixCompte { choix, nb_jets: 1 });
        }
        proof {
            lemma_compter_un_jet(avant, table@, nb_des as nat, num_comb as int, rang as int);
        }
        num_comb += 1;
    }
    table
}

/// A choice that some roll offers is what one of the rolls offers.
pub proof fn lemma_choix_offert(nb_des: nat, limite: int, choix: Seq<Combinaison>)
    requires
        nb_jets_offrant(nb_des, limite, choix) > 0,
    ensures
        exists|num: int| 0 <= num < limite && #[trigger] choix_du_jet(nb_des, num) == choix,
    decreases limite,
{
    if limite > 0 {
        if choix_du_jet(nb_des, limite - 1) == choix {
        } else {
            lemma_choix_offert(nb_des, limite - 1, choix);
            let num = choose|num: int|
                0 <= num < limite - 1 && #[trigger] choix_du_jet(nb_des, num) == choix;
            assert(0 <= num < limite && choix_du_jet(nb_des, num) == choix);
        }
    }
}

} // verus!
