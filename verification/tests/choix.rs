use mitraillette::choix::ChoixCompte;
use mitraillette::choix::compter_jets;
use mitraillette::choix::enumerer_choix;
use mitraillette::choix::enumerer_combinaisons;
use mitraillette::choix::histogramme_du_jet;
use mitraillette::choix::memes_choix;
use mitraillette::combinaison::Combinaison;
use mitraillette::jet_impossible;

fn brelan(idx_face: usize, nb_un: usize, nb_cinq: usize) -> Combinaison {
    Combinaison::BrelanSimple { idx_face, nb_un, nb_cinq }
}

fn double(f1: usize, f2: usize) -> Combinaison {
    Combinaison::BrelanDouble { idx_faces: [f1, f2] }
}

fn simples(nb_un: usize, nb_cinq: usize) -> Combinaison {
    Combinaison::FacesSimples { nb_un, nb_cinq }
}

/// The place of a combination in the order in which offers are listed.
fn rang(comb: &Combinaison) -> usize {
    match *comb {
        Combinaison::Suite => 0,
        Combinaison::TriplePaire => 1,
        Combinaison::BrelanDouble { idx_faces } => 2 + 16 * idx_faces[0] + 1 + idx_faces[1],
        Combinaison::BrelanSimple { idx_face, nb_un, nb_cinq } => {
            2 + 16 * idx_face + if nb_un == 0 && nb_cinq == 0 { 0 } else { 7 + 3 * nb_un + nb_cinq }
        }
        Combinaison::FacesSimples { nb_un, nb_cinq } => 98 + 3 * nb_un + nb_cinq,
    }
}

#[test]
fn un_de_ni_un_ni_cinq_ne_donne_rien() {
    for idx_face in [1usize, 2, 3, 5] {
        let mut histo = [0; 6];
        histo[idx_face] = 1;
        assert_eq!(enumerer_combinaisons(histo), vec![]);
    }
    assert_eq!(enumerer_combinaisons([1, 0, 0, 0, 0, 0]), vec![simples(1, 0)]);
    assert_eq!(enumerer_combinaisons([0, 0, 0, 0, 1, 0]), vec![simples(0, 1)]);
}

#[test]
fn un_de_perd_quatre_fois_sur_six() {
    let table = enumerer_choix(1);
    let perdants: Vec<&ChoixCompte> = table.iter().filter(|c| c.choix.is_empty()).collect();
    assert_eq!(perdants.len(), 1);
    assert_eq!(perdants[0].nb_jets, 4);
    assert_eq!(compter_jets(1), 6);
    let attendu = vec![
        ChoixCompte { choix: vec![simples(1, 0)], nb_jets: 1 },
        ChoixCompte { choix: vec![], nb_jets: 4 },
        ChoixCompte { choix: vec![simples(0, 1)], nb_jets: 1 },
    ];
    assert_eq!(table, attendu);
}

#[test]
fn trois_un_donnent_le_brelan_de_un() {
    let choix = enumerer_combinaisons([3, 0, 0, 0, 0, 0]);
    assert_eq!(choix, vec![brelan(0, 0, 0)]);
    assert_eq!(choix[0].valeur(), 1000);
    assert_eq!(choix[0].nb_des(), 3);
}

#[test]
fn six_faces_differentes_donnent_la_suite() {
    let choix = enumerer_combinaisons([1, 1, 1, 1, 1, 1]);
    assert_eq!(choix, vec![Combinaison::Suite, simples(1, 0), simples(1, 1)]);
    assert_eq!(choix[0].valeur(), 500);
}

#[test]
fn main_vide_n_offre_rien() {
    assert_eq!(enumerer_combinaisons([0; 6]), vec![]);
}

#[test]
fn trois_paires() {
    assert_eq!(enumerer_combinaisons([0, 2, 2, 0, 0, 2]), vec![Combinaison::TriplePaire]);
    assert_eq!(
        enumerer_combinaisons([2, 2, 0, 0, 2, 0]),
        vec![Combinaison::TriplePaire, simples(1, 0), simples(2, 0), simples(2, 1), simples(2, 2)]
    );
    // Four dice of one face make two pairs.
    assert_eq!(
        enumerer_combinaisons([0, 4, 2, 0, 0, 0]),
        vec![Combinaison::TriplePaire, brelan(1, 0, 0)]
    );
}

#[test]
fn six_des_d_une_face() {
    assert_eq!(
        enumerer_combinaisons([6, 0, 0, 0, 0, 0]),
        vec![Combinaison::TriplePaire, brelan(0, 0, 0), double(0, 0)]
    );
    assert_eq!(
        enumerer_combinaisons([0, 0, 0, 0, 6, 0]),
        vec![Combinaison::TriplePaire, brelan(4, 0, 0), double(4, 4)]
    );
}

#[test]
fn deux_brelans_sont_listes_une_fois() {
    assert_eq!(
        enumerer_combinaisons([3, 3, 0, 0, 0, 0]),
        vec![brelan(0, 0, 0), double(0, 1), brelan(1, 0, 0)]
    );
    assert_eq!(
        enumerer_combinaisons([0, 0, 3, 0, 0, 3]),
        vec![brelan(2, 0, 0), double(2, 5), brelan(5, 0, 0)]
    );
}

#[test]
fn brelan_avec_des_faces_simples() {
    assert_eq!(
        enumerer_combinaisons([4, 0, 0, 0, 1, 0]),
        vec![brelan(0, 0, 0), brelan(0, 1, 0), brelan(0, 1, 1), simples(1, 0), simples(1, 1)]
    );
    assert_eq!(
        enumerer_combinaisons([1, 0, 3, 0, 2, 0]),
        vec![
            brelan(2, 0, 0),
            brelan(2, 1, 0),
            brelan(2, 1, 1),
            brelan(2, 1, 2),
            simples(1, 0),
            simples(1, 1),
            simples(1, 2)
        ]
    );
}

#[test]
fn cinq_jamais_offert_avant_tous_les_un() {
    assert_eq!(
        enumerer_combinaisons([2, 0, 0, 0, 2, 0]),
        vec![simples(1, 0), simples(2, 0), simples(2, 1), simples(2, 2)]
    );
    assert_eq!(enumerer_combinaisons([0, 1, 0, 0, 2, 0]), vec![simples(0, 1), simples(0, 2)]);
}

#[test]
fn trois_un_ne_sont_pas_des_faces_simples() {
    assert_eq!(
        enumerer_combinaisons([3, 0, 0, 0, 3, 0]),
        vec![brelan(0, 0, 0), double(0, 4), brelan(4, 0, 0)]
    );
    assert_eq!(
        enumerer_combinaisons([5, 0, 0, 0, 0, 0]),
        vec![brelan(0, 0, 0), brelan(0, 1, 0), brelan(0, 2, 0), simples(1, 0), simples(2, 0)]
    );
}

#[test]
fn histogramme_lit_le_jet_en_base_six() {
    assert_eq!(histogramme_du_jet(0, 0), [0; 6]);
    assert_eq!(histogramme_du_jet(1, 4), [0, 0, 0, 0, 1, 0]);
    assert_eq!(histogramme_du_jet(3, 0), [3, 0, 0, 0, 0, 0]);
    // 5 + 6 * 1 + 36 * 5
    assert_eq!(histogramme_du_jet(3, 191), [0, 1, 0, 0, 0, 2]);
    assert_eq!(histogramme_du_jet(6, 46655), [0, 0, 0, 0, 0, 6]);
    // 0 + 6 * 1 + 36 * 2 + 216 * 3 + 1296 * 4 + 7776 * 5
    assert_eq!(histogramme_du_jet(6, 44790), [1, 1, 1, 1, 1, 1]);
    // Digits past the number of dice are not read.
    assert_eq!(histogramme_du_jet(1, 11), [0, 0, 0, 0, 0, 1]);
}

#[test]
fn nombre_de_jets() {
    let attendu = [1u64, 6, 36, 216, 1296, 7776, 46656];
    for nb_des in 0..=6 {
        assert_eq!(compter_jets(nb_des), attendu[nb_des]);
    }
}

#[test]
fn les_comptes_font_tous_les_jets() {
    for nb_des in 0..=6 {
        let table = enumerer_choix(nb_des);
        let total: u64 = table.iter().map(|c| c.nb_jets).sum();
        assert_eq!(total, compter_jets(nb_des));
        let probas: f64 = table.iter().map(|c| c.nb_jets as f64 / total as f64).sum();
        assert!((probas - 1.0).abs() < 1e-9);
    }
}

#[test]
fn chaque_choix_est_compte_une_fois() {
    for nb_des in 0..=6 {
        let table = enumerer_choix(nb_des);
        for (i, entree) in table.iter().enumerate() {
            assert!(entree.nb_jets > 0);
            for autre in table.iter().skip(i + 1) {
                assert!(!memes_choix(&entree.choix, &autre.choix));
            }
        }
    }
}

#[test]
fn les_comptes_sont_ceux_des_jets() {
    for nb_des in [2usize, 4] {
        let table = enumerer_choix(nb_des);
        let mut vus = 0;
        for entree in table.iter() {
            let mut compte = 0;
            for num in 0..compter_jets(nb_des) {
                let choix = enumerer_combinaisons(histogramme_du_jet(nb_des, num));
                if choix == entree.choix {
                    compte += 1;
                }
            }
            assert_eq!(compte, entree.nb_jets);
            vus += compte;
        }
        assert_eq!(vus, compter_jets(nb_des));
    }
}

#[test]
fn les_choix_viennent_dans_l_ordre_des_jets() {
    let nb_des = 3;
    let table = enumerer_choix(nb_des);
    let premier = |choix: &Vec<Combinaison>| {
        (0..compter_jets(nb_des))
            .find(|&num| &enumerer_combinaisons(histogramme_du_jet(nb_des, num)) == choix)
            .expect("each choice of the table is offered by a roll")
    };
    let premiers: Vec<u64> = table.iter().map(|c| premier(&c.choix)).collect();
    assert_eq!(premiers[0], 0);
    for paire in premiers.windows(2) {
        assert!(paire[0] < paire[1]);
    }
}

#[test]
fn table_a_deux_des() {
    let table = enumerer_choix(2);
    let attendu = vec![
        ChoixCompte { choix: vec![simples(1, 0), simples(2, 0)], nb_jets: 1 },
        ChoixCompte { choix: vec![simples(1, 0)], nb_jets: 8 },
        ChoixCompte { choix: vec![simples(1, 0), simples(1, 1)], nb_jets: 2 },
        ChoixCompte { choix: vec![], nb_jets: 16 },
        ChoixCompte { choix: vec![simples(0, 1)], nb_jets: 8 },
        ChoixCompte { choix: vec![simples(0, 1), simples(0, 2)], nb_jets: 1 },
    ];
    assert_eq!(table, attendu);
}

#[test]
fn nombre_de_choix_par_nombre_de_des() {
    let nb_choix: Vec<usize> = (0..=6).map(|n| enumerer_choix(n).len()).collect();
    assert_eq!(nb_choix, vec![1, 3, 6, 14, 27, 45, 97]);
}

#[test]
fn les_offres_sont_en_ordre_et_jouables() {
    for nb_des in 0..=6usize {
        for num in 0..compter_jets(nb_des) {
            let histo = histogramme_du_jet(nb_des, num);
            assert_eq!(histo.iter().sum::<usize>(), nb_des);
            let choix = enumerer_combinaisons(histo);
            for paire in choix.windows(2) {
                assert!(rang(&paire[0]) < rang(&paire[1]));
            }
            for comb in choix.iter() {
                assert!(1 <= comb.nb_des() && comb.nb_des() <= nb_des);
                assert!(50 <= comb.valeur() && comb.valeur() <= 2000);
                if let Combinaison::BrelanDouble { idx_faces } = comb {
                    assert!(idx_faces[0] <= idx_faces[1] && idx_faces[1] < 6);
                }
            }
        }
    }
}

#[test]
fn memes_offres_meme_liste() {
    // Rolls that offer the same combinations give the same list, whatever
    // the faces that bring nothing.
    let nb_des = 4;
    let mut listes: Vec<Vec<Combinaison>> = Vec::new();
    for num in 0..compter_jets(nb_des) {
        let choix = enumerer_combinaisons(histogramme_du_jet(nb_des, num));
        let mut trie = choix.clone();
        trie.sort();
        match listes.iter().find(|l| {
            let mut autre = (*l).clone();
            autre.sort();
            autre == trie
        }) {
            Some(liste) => assert_eq!(liste, &choix),
            None => listes.push(choix),
        }
    }
    assert_eq!(listes.len(), 27);
    assert_eq!(
        enumerer_combinaisons([1, 1, 0, 1, 0, 0]),
        enumerer_combinaisons([1, 0, 0, 0, 0, 2])
    );
}

#[test]
fn comparaison_des_choix() {
    let a = vec![brelan(0, 0, 0), double(0, 1)];
    let b = vec![brelan(0, 0, 0), double(0, 1)];
    let c = vec![brelan(0, 0, 0), double(0, 2)];
    let d = vec![brelan(0, 0, 0)];
    assert!(memes_choix(&a, &b));
    assert!(!memes_choix(&a, &c));
    assert!(!memes_choix(&a, &d));
    assert!(!memes_choix(&d, &a));
    assert!(memes_choix(&vec![], &vec![]));
}

#[test]
fn jets_impossibles() {
    // The game is over.
    assert!(jet_impossible(10000, 6, 0));
    assert!(jet_impossible(9000, 6, 1000));
    assert!(jet_impossible(65535, 6, 65535));
    // The turn begins.
    assert!(!jet_impossible(0, 6, 0));
    // Dice that left the hand brought fifty points each at least.
    assert!(jet_impossible(0, 1, 200));
    assert!(!jet_impossible(0, 1, 250));
    assert!(jet_impossible(0, 5, 0));
    assert!(!jet_impossible(0, 5, 50));
    // A full hand after six dice were taken.
    assert!(jet_impossible(0, 6, 250));
    assert!(!jet_impossible(0, 6, 300));
    assert!(!jet_impossible(0, 7, 0));
    assert!(jet_impossible(0, 7, 100));
}
