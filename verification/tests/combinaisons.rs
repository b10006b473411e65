use mitraillette::combinaison::Combinaison;
use mitraillette::combinaison::VALEUR_MIN_DE;
use mitraillette::combinaison::ecrire_nombre;

#[test]
fn valeur_de_la_suite_et_des_trois_paires() {
    assert_eq!(Combinaison::Suite.valeur(), 500);
    assert_eq!(Combinaison::TriplePaire.valeur(), 500);
}

#[test]
fn valeur_des_brelans() {
    let valeurs = [1000, 200, 300, 400, 500, 600];
    for idx_face in 0..6 {
        let brelan = Combinaison::BrelanSimple { idx_face, nb_un: 0, nb_cinq: 0 };
        assert_eq!(brelan.valeur(), valeurs[idx_face]);
    }
}

#[test]
fn valeur_du_brelan_de_un_et_du_brelan_de_six() {
    let de_un = Combinaison::BrelanSimple { idx_face: 0, nb_un: 0, nb_cinq: 0 };
    let de_six = Combinaison::BrelanSimple { idx_face: 5, nb_un: 0, nb_cinq: 0 };
    assert_eq!(de_un.valeur(), 1000);
    assert_eq!(de_six.valeur(), 600);
}

#[test]
fn valeur_du_brelan_avec_des_faces_simples() {
    let comb = Combinaison::BrelanSimple { idx_face: 2, nb_un: 2, nb_cinq: 1 };
    assert_eq!(comb.valeur(), 300 + 200 + 50);
    assert_eq!(comb.nb_des(), 6);
}

#[test]
fn valeur_du_double_brelan() {
    let comb = Combinaison::BrelanDouble { idx_faces: [0, 5] };
    assert_eq!(comb.valeur(), 1600);
    let six_un = Combinaison::BrelanDouble { idx_faces: [0, 0] };
    assert_eq!(six_un.valeur(), 2000);
    assert_eq!(six_un.nb_des(), 6);
}

#[test]
fn valeur_des_faces_simples() {
    assert_eq!(Combinaison::FacesSimples { nb_un: 1, nb_cinq: 0 }.valeur(), 100);
    assert_eq!(Combinaison::FacesSimples { nb_un: 0, nb_cinq: 1 }.valeur(), VALEUR_MIN_DE);
    assert_eq!(Combinaison::FacesSimples { nb_un: 2, nb_cinq: 2 }.valeur(), 300);
}

#[test]
fn nombre_de_des_consommes() {
    assert_eq!(Combinaison::Suite.nb_des(), 6);
    assert_eq!(Combinaison::TriplePaire.nb_des(), 6);
    assert_eq!(Combinaison::FacesSimples { nb_un: 1, nb_cinq: 0 }.nb_des(), 1);
    assert_eq!(Combinaison::BrelanSimple { idx_face: 3, nb_un: 0, nb_cinq: 0 }.nb_des(), 3);
    assert_eq!(Combinaison::BrelanSimple { idx_face: 3, nb_un: 1, nb_cinq: 1 }.nb_des(), 5);
}

#[test]
fn egalite_des_combinaisons() {
    let a = Combinaison::BrelanDouble { idx_faces: [1, 2] };
    let b = Combinaison::BrelanDouble { idx_faces: [1, 2] };
    let c = Combinaison::BrelanDouble { idx_faces: [1, 3] };
    assert!(a.egale(&b));
    assert!(!a.egale(&c));
    assert!(!a.egale(&Combinaison::Suite));
    assert!(Combinaison::Suite.egale(&Combinaison::Suite));
    assert!(!Combinaison::Suite.egale(&Combinaison::TriplePaire));
    let d = Combinaison::FacesSimples { nb_un: 1, nb_cinq: 2 };
    assert!(d.egale(&Combinaison::FacesSimples { nb_un: 1, nb_cinq: 2 }));
    assert!(!d.egale(&Combinaison::FacesSimples { nb_un: 2, nb_cinq: 1 }));
    assert!(!d.egale(&Combinaison::BrelanSimple { idx_face: 0, nb_un: 1, nb_cinq: 2 }));
}

#[test]
fn libelle_des_combinaisons() {
    assert_eq!(Combinaison::Suite.libelle(), "Suite");
    assert_eq!(Combinaison::TriplePaire.libelle(), "3Paires");
    assert_eq!(Combinaison::BrelanDouble { idx_faces: [1, 3] }.libelle(), "Brelan2+Brelan4");
    assert_eq!(Combinaison::BrelanSimple { idx_face: 5, nb_un: 0, nb_cinq: 0 }.libelle(), "Brelan6");
    assert_eq!(
        Combinaison::BrelanSimple { idx_face: 5, nb_un: 2, nb_cinq: 1 }.libelle(),
        "Brelan6+2x1+1x5"
    );
    assert_eq!(Combinaison::BrelanSimple { idx_face: 2, nb_un: 0, nb_cinq: 2 }.libelle(), "Brelan3+2x5");
    assert_eq!(Combinaison::FacesSimples { nb_un: 1, nb_cinq: 2 }.libelle(), "1x1+2x5");
    assert_eq!(Combinaison::FacesSimples { nb_un: 2, nb_cinq: 0 }.libelle(), "2x1");
    assert_eq!(Combinaison::FacesSimples { nb_un: 0, nb_cinq: 1 }.libelle(), "1x5");
    assert_eq!(Combinaison::FacesSimples { nb_un: 0, nb_cinq: 0 }.libelle(), "");
}

#[test]
fn ecriture_des_nombres() {
    assert_eq!(ecrire_nombre(0), "0");
    assert_eq!(ecrire_nombre(7), "7");
    assert_eq!(ecrire_nombre(10), "10");
    assert_eq!(ecrire_nombre(1234567890), "1234567890");
    assert_eq!(ecrire_nombre(u128::MAX), u128::MAX.to_string());
    let grand = Combinaison::BrelanSimple { idx_face: usize::MAX, nb_un: 12, nb_cinq: 0 };
    assert_eq!(grand.libelle(), format!("Brelan{}+12x1", usize::MAX as u128 + 1));
}
