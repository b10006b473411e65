use mitraillette::SCORE_MAX;
use mitraillette::combinaison::Combinaison;
use mitraillette::solveur::ECHELLE;
use mitraillette::solveur::Objectif;
use mitraillette::solveur::calcul;
use mitraillette::solveur::valeur_arret;
use mitraillette::stats::Possibilite;
use mitraillette::stats::Stats;
use mitraillette::stats::StatsChoix;
use mitraillette::stats::StatsJet;
use std::collections::HashMap;

/// Six to the power twelve.
const SIX_PUISSANCE_DOUZE: u64 = 6 * 6 * 6 * 6 * 6 * 6 * 6 * 6 * 6 * 6 * 6 * 6;

fn puissance_de_six(nb_des: usize) -> u64 {
    let mut n = 1;
    for _ in 0..nb_des {
        n *= 6;
    }
    n
}

#[test]
fn echelle_est_six_puissance_douze() {
    assert_eq!(ECHELLE, SIX_PUISSANCE_DOUZE);
    assert_eq!(SCORE_MAX, 10000);
}

#[test]
fn tables_comptent_tous_les_jets() {
    let stats = Stats::new();
    for nb_des in 1..=6 {
        let jet = stats.stats_jet(nb_des);
        let gagnants: u64 = jet.stats_choix.iter().map(|c| c.nb_jets).sum();
        assert_eq!(jet.nb_jets, puissance_de_six(nb_des));
        assert_eq!(gagnants + jet.nb_jets_perdants, jet.nb_jets);
    }
}

#[test]
fn jets_perdants_par_nombre_de_des() {
    let stats = Stats::new();
    let perdants: Vec<u64> = (1..=6).map(|n| stats.stats_jet(n).nb_jets_perdants).collect();
    assert_eq!(perdants, vec![4, 16, 60, 204, 600, 1080]);
    let nb_choix: Vec<usize> = (1..=6).map(|n| stats.stats_jet(n).stats_choix.len()).collect();
    assert_eq!(nb_choix, vec![2, 5, 13, 26, 44, 96]);
}

#[test]
fn table_a_un_de() {
    let jet = StatsJet::new(1);
    assert_eq!(jet.nb_jets, 6);
    assert_eq!(jet.nb_jets_perdants, 4);
    let un = Combinaison::FacesSimples { nb_un: 1, nb_cinq: 0 };
    let cinq = Combinaison::FacesSimples { nb_un: 0, nb_cinq: 1 };
    let attendu = vec![
        StatsChoix {
            choix: vec![Possibilite { comb: un, valeur: 100, nb_des_relance: 6 }],
            nb_jets: 1,
            valeur_max: 100,
        },
        StatsChoix {
            choix: vec![Possibilite { comb: cinq, valeur: 50, nb_des_relance: 6 }],
            nb_jets: 1,
            valeur_max: 50,
        },
    ];
    assert_eq!(jet.stats_choix, attendu);
}

#[test]
fn table_sans_de() {
    let jet = StatsJet::new(0);
    assert_eq!(jet.nb_jets, 1);
    assert_eq!(jet.nb_jets_perdants, 1);
    assert!(jet.stats_choix.is_empty());
}

#[test]
fn possibilite_garde_les_des_restants() {
    let brelan = Combinaison::BrelanSimple { idx_face: 0, nb_un: 0, nb_cinq: 0 };
    let poss = Possibilite::new(brelan, 6);
    assert_eq!(poss.comb, brelan);
    assert_eq!(poss.valeur, 1000);
    assert_eq!(poss.nb_des_relance, 3);
    let poss = Possibilite::new(brelan, 5);
    assert_eq!(poss.nb_des_relance, 2);
    let simple = Combinaison::FacesSimples { nb_un: 0, nb_cinq: 1 };
    assert_eq!(Possibilite::new(simple, 2).nb_des_relance, 1);
}

#[test]
fn brelan_qui_prend_toute_la_main_rend_six_des() {
    let brelan = Combinaison::BrelanSimple { idx_face: 0, nb_un: 0, nb_cinq: 0 };
    let poss = Possibilite::new(brelan, 3);
    assert_eq!(poss.nb_des_relance, 6);
    let avec = Combinaison::BrelanSimple { idx_face: 3, nb_un: 1, nb_cinq: 1 };
    assert_eq!(Possibilite::new(avec, 5).nb_des_relance, 6);
    assert_eq!(Possibilite::new(avec, 6).nb_des_relance, 1);
    assert_eq!(Possibilite::new(Combinaison::Suite, 6).nb_des_relance, 6);
    assert_eq!(Possibilite::new(Combinaison::FacesSimples { nb_un: 1, nb_cinq: 0 }, 1).nb_des_relance, 6);
}

#[test]
fn aucune_relance_a_zero_de() {
    let stats = Stats::new();
    for nb_des in 1..=6 {
        for stats_choix in stats.stats_jet(nb_des).stats_choix.iter() {
            assert!(!stats_choix.choix.is_empty());
            let mut valeur_max = 0;
            for poss in stats_choix.choix.iter() {
                assert!(1 <= poss.nb_des_relance && poss.nb_des_relance <= 6);
                assert_eq!(poss.valeur, poss.comb.valeur());
                let cout = poss.comb.nb_des();
                assert!(cout <= nb_des);
                let attendu = if cout == nb_des { 6 } else { nb_des - cout };
                assert_eq!(poss.nb_des_relance, attendu);
                valeur_max = valeur_max.max(poss.valeur);
            }
            assert_eq!(stats_choix.valeur_max, valeur_max);
        }
    }
}

#[test]
fn choix_annote_note_la_valeur_la_plus_chere() {
    let choix = vec![
        Combinaison::Suite,
        Combinaison::FacesSimples { nb_un: 1, nb_cinq: 0 },
        Combinaison::FacesSimples { nb_un: 1, nb_cinq: 1 },
    ];
    let stats_choix = StatsChoix::new(&choix, 6, 720);
    assert_eq!(stats_choix.nb_jets, 720);
    assert_eq!(stats_choix.valeur_max, 500);
    let relances: Vec<usize> = stats_choix.choix.iter().map(|p| p.nb_des_relance).collect();
    assert_eq!(relances, vec![6, 5, 4]);
    let valeurs: Vec<u16> = stats_choix.choix.iter().map(|p| p.valeur).collect();
    assert_eq!(valeurs, vec![500, 100, 150]);
}

#[test]
fn arret_sur_une_suite_vaut_la_mise_plus_cinq_cents() {
    let stats = Stats::new();
    let jet = stats.stats_jet(6);
    let avec_suite = jet
        .stats_choix
        .iter()
        .find(|c| c.choix.iter().any(|p| p.comb == Combinaison::Suite))
        .expect("a roll of six dice may show a straight");
    assert_eq!(avec_suite.nb_jets, 720);
    assert_eq!(avec_suite.valeur_max, 500);
    for mise in [0u16, 50, 300, 1000] {
        let arret = valeur_arret(Objectif::Gain, 0, mise, avec_suite.valeur_max);
        assert_eq!(arret, (mise as u64 + 500) * ECHELLE);
    }
}

#[test]
fn arret_interdit_au_dela_du_score_final() {
    assert_eq!(valeur_arret(Objectif::Gain, 9000, 500, 500), 1000 * ECHELLE);
    assert_eq!(valeur_arret(Objectif::Gain, 9000, 500, 550), 0);
    assert_eq!(valeur_arret(Objectif::Gain, 65535, 65535, 65535), 0);
    assert_eq!(valeur_arret(Objectif::Fin, 9000, 500, 500), ECHELLE);
    assert_eq!(valeur_arret(Objectif::Fin, 9000, 500, 450), 0);
    assert_eq!(valeur_arret(Objectif::Fin, 9000, 500, 550), 0);
}

#[test]
fn esperance_sans_relance_a_un_de() {
    // One roll in six shows a one and one a five: (100 + 50) / 6 points.
    let mut stats = Stats::new();
    assert_eq!(stats.calcul_esperance(0, 1, 0, 0), 150 * ECHELLE / 6);
    // With 300 points at stake: (400 + 350) / 6 points.
    assert_eq!(stats.calcul_esperance(0, 1, 300, 0), 750 * ECHELLE / 6);
}

#[test]
fn esperance_sans_relance_a_deux_des() {
    // Of 36 rolls: one shows two ones (200), two a one and a five (150),
    // eight a one alone (100), one two fives (100), eight a five alone (50).
    let mut stats = Stats::new();
    let attendu = (200 + 2 * 150 + 8 * 100 + 100 + 8 * 50) * ECHELLE / 36;
    assert_eq!(stats.calcul_esperance(0, 2, 0, 0), attendu);
}

#[test]
fn esperance_avec_une_relance_a_un_de() {
    // After a one or a five the player holds six dice again, and rolls
    // them if that is worth more than stopping.
    let mut stats = Stats::new();
    let apres_un = stats.calcul_esperance(0, 6, 100, 0).max(100 * ECHELLE);
    let apres_cinq = stats.calcul_esperance(0, 6, 50, 0).max(50 * ECHELLE);
    assert_eq!(stats.calcul_esperance(0, 1, 0, 1), (apres_un + apres_cinq) / 6);
}

#[test]
fn esperance_bornee_croit_avec_les_relances() {
    let mut stats = Stats::new();
    for (score, nb_des, mise) in [(0u16, 6usize, 0u16), (0, 1, 300), (0, 3, 2000), (9000, 6, 0), (5000, 2, 250)] {
        let mut precedente = 0;
        for relances in 0..12 {
            let valeur = stats.calcul_esperance(score, nb_des, mise, relances);
            assert!(valeur >= precedente);
            assert!(valeur <= SCORE_MAX as u64 * ECHELLE);
            precedente = valeur;
        }
    }
}

#[test]
fn proba_bornee_croit_avec_les_relances() {
    let mut stats = Stats::new();
    for (score, nb_des, mise) in [(9000u16, 6usize, 0u16), (9500, 6, 0), (9900, 1, 0), (8000, 4, 1500)] {
        let mut precedente = 0;
        for relances in 0..12 {
            let valeur = stats.calcul_proba_fin(score, nb_des, mise, relances);
            assert!(valeur >= precedente);
            assert!(valeur <= ECHELLE);
            precedente = valeur;
        }
    }
}

#[test]
fn esperance_a_six_des_sans_mise_converge() {
    let mut stats = Stats::new();
    let esperance = stats.esperance(0, 6, 0);
    let mut precedente = 0;
    let mut relances = 0;
    loop {
        let valeur = stats.calcul_esperance(0, 6, 0, relances);
        assert!(valeur >= precedente);
        if valeur == precedente {
            break;
        }
        precedente = valeur;
        relances += 1;
    }
    assert_eq!(precedente, esperance);
    assert_eq!(relances, 17);
    assert_eq!(esperance, 1055586639422);
    let en_points = esperance as f64 / ECHELLE as f64;
    assert!((en_points - 484.9298076).abs() < 1e-6);
}

#[test]
fn esperance_ne_depend_pas_de_ce_qui_est_deja_calcule() {
    let mut stats = Stats::new();
    let mut autre = Stats::new();
    let _ = autre.esperance(0, 3, 300);
    let _ = autre.proba_fin(9000, 6, 0, 5);
    for nb_des in 1..=6 {
        assert_eq!(stats.esperance(0, nb_des, 300), autre.esperance(0, nb_des, 300));
    }
}

#[test]
fn esperance_nulle_quand_la_partie_est_finie() {
    let mut stats = Stats::new();
    assert_eq!(stats.esperance(10000, 6, 0), 0);
    assert_eq!(stats.esperance(9000, 6, 1000), 0);
    assert_eq!(stats.esperance(65535, 6, 65535), 0);
    assert_eq!(stats.gain_moyen(9000, 6, 1000), -1000 * ECHELLE as i64);
}

#[test]
fn gain_moyen_est_l_esperance_moins_la_mise() {
    let mut stats = Stats::new();
    for nb_des in 1..=6 {
        for mise in [0u16, 300, 950, 2000] {
            let esperance = stats.esperance(0, nb_des, mise) as i64;
            let gain = stats.gain_moyen(0, nb_des, mise);
            assert_eq!(gain, esperance - mise as i64 * ECHELLE as i64);
        }
    }
    // Rolling six dice with nothing at stake can only bring points.
    assert!(stats.gain_moyen(0, 6, 0) > 0);
    // Rolling one die with 2000 points at stake loses on average.
    assert!(stats.gain_moyen(0, 1, 2000) < 0);
}

#[test]
fn proba_fin_a_cinquante_points_de_la_fin() {
    // At 9950 with one die only a five ends the game at once; a one
    // goes past the end and cannot be taken to stop.
    let mut stats = Stats::new();
    assert_eq!(stats.calcul_proba_fin(9950, 1, 0, 0), ECHELLE / 6);
    assert_eq!(stats.proba_fin(9950, 1, 0, 0), ECHELLE / 6);
    assert_eq!(stats.proba_fin(9950, 1, 0, 11), ECHELLE / 6);
}

#[test]
fn proba_fin_s_arrete_au_premier_palier() {
    let mut stats = Stats::new();
    for (score, max_relances) in [(9000u16, 11usize), (9500, 11), (9500, 3), (8000, 11), (8000, 0)] {
        let proba = stats.proba_fin(score, 6, 0, max_relances);
        let mut attendu = None;
        let mut precedente = 0;
        for relances in 0..max_relances as u64 {
            let valeur = stats.calcul_proba_fin(score, 6, 0, relances);
            if valeur > 0 && valeur == precedente {
                attendu = Some(valeur);
                break;
            }
            precedente = valeur;
        }
        let attendu = match attendu {
            Some(valeur) => valeur,
            None => stats.calcul_proba_fin(score, 6, 0, max_relances as u64),
        };
        assert_eq!(proba, attendu);
        assert!(proba <= ECHELLE);
    }
}

#[test]
fn proba_fin_nulle_sans_chemin_vers_la_fin() {
    let mut stats = Stats::new();
    // From a nil score no single roll reaches ten thousand points.
    assert_eq!(stats.proba_fin(0, 6, 0, 0), 0);
    assert_eq!(stats.proba_fin(10000, 6, 0, 4), 0);
}

#[test]
fn calcul_garde_ce_qu_il_a_trouve() {
    let stats = Stats::new();
    let tables: Vec<StatsJet> = (1..=6).map(|n| stats.stats_jet(n).clone()).collect();
    let mut memo: HashMap<u128, u64> = HashMap::new();
    let valeur = calcul(&tables, &mut memo, Objectif::Gain, 0, 6, 0, 3);
    let taille = memo.len();
    assert!(taille > 0);
    let avant = memo.clone();
    let encore = calcul(&tables, &mut memo, Objectif::Gain, 0, 6, 0, 3);
    assert_eq!(valeur, encore);
    assert_eq!(memo, avant);
    let plus_loin = calcul(&tables, &mut memo, Objectif::Gain, 0, 6, 0, 4);
    assert!(plus_loin >= valeur);
    assert!(memo.len() > taille);
    for (cle, v) in avant.iter() {
        assert_eq!(memo.get(cle), Some(v));
    }
}

#[test]
fn libelle_d_une_possibilite() {
    let comb = Combinaison::BrelanSimple { idx_face: 1, nb_un: 1, nb_cinq: 0 };
    let poss = Possibilite::new(comb, 6);
    assert_eq!(poss.libelle(), "Brelan2+1x1 (300pt, relance 2d)");
    let poss = Possibilite::new(Combinaison::Suite, 6);
    assert_eq!(poss.libelle(), "Suite (500pt, relance 6d)");
}

#[test]
fn esperance_sans_relance_est_exacte() {
    // The number of parts of a point is a multiple of each number of
    // rolls, so that nothing is dropped where no reroll is allowed.
    let mut stats = Stats::new();
    for nb_des in 1..=6 {
        let jet = stats.stats_jet(nb_des).clone();
        let somme: u64 = jet.stats_choix.iter().map(|c| c.nb_jets * (300 + c.valeur_max as u64)).sum();
        assert_eq!(ECHELLE % jet.nb_jets, 0);
        assert_eq!(stats.calcul_esperance(0, nb_des, 300, 0), somme * (ECHELLE / jet.nb_jets));
    }
}

/// The expectation in floating point, worked out afresh.
fn esperance_flottante(tables: &[StatsJet], score: u32, nb_des: usize, mise: u32, relances: u32) -> f64 {
    let jet = &tables[nb_des - 1];
    let mut somme = 0.0;
    for stats_choix in jet.stats_choix.iter() {
        let valeur_max = stats_choix.valeur_max as u32;
        let mut meilleur = if score + mise + valeur_max <= 10000 { (mise + valeur_max) as f64 } else { 0.0 };
        if relances > 0 {
            for poss in stats_choix.choix.iter() {
                let nouvelle_mise = mise + poss.valeur as u32;
                if score + nouvelle_mise >= 10000 {
                    continue;
                }
                let relance =
                    esperance_flottante(tables, score, poss.nb_des_relance, nouvelle_mise, relances - 1);
                meilleur = meilleur.max(relance);
            }
        }
        somme += meilleur * stats_choix.nb_jets as f64 / jet.nb_jets as f64;
    }
    somme
}

#[test]
fn valeurs_proches_des_esperances_flottantes() {
    let mut stats = Stats::new();
    let tables: Vec<StatsJet> = (1..=6).map(|n| stats.stats_jet(n).clone()).collect();
    for (score, nb_des, mise) in [(0u16, 2usize, 0u16), (0, 1, 300), (0, 3, 250), (9000, 2, 400), (0, 2, 2000)] {
        for relances in 0..3u32 {
            let valeur = stats.calcul_esperance(score, nb_des, mise, relances as u64);
            let attendu = esperance_flottante(&tables, score as u32, nb_des, mise as u32, relances);
            let en_points = valeur as f64 / ECHELLE as f64;
            assert!((en_points - attendu).abs() < 1e-6, "{} {}", en_points, attendu);
            // What is dropped makes less than one part for each mean taken.
            assert!(en_points <= attendu + 1e-9);
        }
    }
}
