//! The scoring combinations of the game, what each is worth and how many dice
//! it takes out of the hand.

use vstd::prelude::*;
use vstd::string::StringExecFns;

verus! {

/// Points: the value of a combination, a stake or a score.
pub type Valeur = u16;

/// The least number of points that a single die can bring.
pub const VALEUR_MIN_DE: Valeur = 50;

/// A scoring combination that a roll may offer. Faces are numbered from 0, so
/// that face index 0 is the "one" and face index 4 the "five".
#[derive(Clone, Copy, Debug, PartialEq, Eq, Hash, PartialOrd, Ord)]
pub enum Combinaison {
    /// 1 2 3 4 5 6.
    Suite,
    /// Three pairs among six dice.
    TriplePaire,
    /// Two triples, the smaller face index first.
    BrelanDouble { idx_faces: [usize; 2] },
    /// One triple, together with some of the remaining ones and fives.
    BrelanSimple { idx_face: usize, nb_un: usize, nb_cinq: usize },
    /// Ones and fives, and nothing else.
    FacesSimples { nb_un: usize, nb_cinq: usize },
}

/// Points for three dice showing the face of index `idx_face`: a thousand for
/// three ones, a hundred times the face for the others.
pub open spec fn valeur_brelan(idx_face: int) -> int {
    if idx_face == 0 {
        1000
    } else {
        100 * (idx_face + 1)
    }
}

/// The combination of two triples, of the faces of indices `premiere` and
/// `seconde`.
pub open spec fn brelan_double(premiere: int, seconde: int) -> Combinaison {
    Combinaison::BrelanDouble { idx_faces: [premiere as usize, seconde as usize] }
}

/// The figure that stands for a number below ten.
pub open spec fn chiffre(n: int) -> char {
    if n == 0 {
        '0'
    } else if n == 1 {
        '1'
    } else if n == 2 {
        '2'
    } else if n == 3 {
        '3'
    } else if n == 4 {
        '4'
    } else if n == 5 {
        '5'
    } else if n == 6 {
        '6'
    } else if n == 7 {
        '7'
    } else if n == 8 {
        '8'
    } else {
        '9'
    }
}

/// A number written in base ten.
pub open spec fn en_chiffres(n: nat) -> Seq<char>
    decreases n,
{
    if n < 10 {
        seq![chiffre(n as int)]
    } else {
        en_chiffres(n / 10).push(chiffre((n % 10) as int))
    }
}

/// So many dice that show a face, as in "2x5": the number, an "x" and the
/// face; nothing where there is no such die.
pub open spec fn texte_des_faces(nb: nat, face: Seq<char>) -> Seq<char> {
    if nb > 0 {
        en_chiffres(nb) + "x"@ + face
    } else {
        Seq::empty()
    }
}

impl Combinaison {
    /// The points that the combination is worth.
    pub open spec fn points(self) -> int {
        match self {
            Combinaison::Suite => 500,
            Combinaison::TriplePaire => 500,
            Combinaison::BrelanDouble { idx_faces } => valeur_brelan(idx_faces[0] as int)
                + valeur_brelan(idx_faces[1] as int),
            Combinaison::BrelanSimple { idx_face, nb_un, nb_cinq } => valeur_brelan(
                idx_face as int,
            ) + 100 * nb_un + 50 * nb_cinq,
            Combinaison::FacesSimples { nb_un, nb_cinq } => 100 * nb_un + 50 * nb_cinq,
        }
    }

    /// The number of dice that leave the hand when the combination is taken.
    pub open spec fn cout(self) -> int {
        match self {
            Combinaison::Suite => 6,
            Combinaison::TriplePaire => 6,
            Combinaison::BrelanDouble { .. } => 6,
            Combinaison::BrelanSimple { nb_un, nb_cinq, .. } => 3 + nb_un + nb_cinq,
            Combinaison::FacesSimples { nb_un, nb_cinq } => nb_un + nb_cinq,
        }
    }

    /// Whether every face index that the combination names is that of a face
    /// of a die.
    pub open spec fn faces_valides(self) -> bool {
        match self {
            Combinaison::BrelanDouble { idx_faces } => idx_faces[0] < 6 && idx_faces[1] < 6,
            Combinaison::BrelanSimple { idx_face, .. } => idx_face < 6,
            _ => true,
        }
    }

    /// The value of the combination in points.
    pub fn valeur(&self) -> (v: Valeur)
        requires
            self.faces_valides(),
            self.points() <= Valeur::MAX,
        ensures
            v == self.points(),
    {
        match self {
            Combinaison::Suite | Combinaison::TriplePaire => 500,
            Combinaison::BrelanDouble { idx_faces } => valeur_un_brelan(idx_faces[0])
                + valeur_un_brelan(idx_faces[1]),
            Combinaison::BrelanSimple { idx_face, nb_un, nb_cinq } => valeur_un_brelan(*idx_face)
                + (*nb_un as Valeur) * 100 + (*nb_cinq as Valeur) * 50,
            Combinaison::FacesSimples { nb_un, nb_cinq } => (*nb_un as Valeur) * 100 + (
            *nb_cinq as Valeur) * 50,
        }
    }

    /// The number of dice used up if the combination is taken.
    pub fn nb_des(&self) -> (n: usize)
        requires
            self.cout() <= usize::MAX,
        ensures
            n == self.cout(),
    {
        match self {
            Combinaison::Suite | Combinaison::TriplePaire | Combinaison::BrelanDouble { .. } => 6,
            Combinaison::BrelanSimple { idx_face: _, nb_un, nb_cinq } => 3 + *nb_un + *nb_cinq,
            Combinaison::FacesSimples { nb_un, nb_cinq } => *nb_un + *nb_cinq,
        }
    }

    /// Whether two combinations are the same one.
    pub fn egale(&self, autre: &Combinaison) -> (r: bool)
        ensures
            r == (*self == *autre),
    {
        match *self {
            Combinaison::Suite => match *autre {
                Combinaison::Suite => true,
                _ => false,
            },
            Combinaison::TriplePaire => match *autre {
                Combinaison::TriplePaire => true,
                _ => false,
            },
            Combinaison::BrelanDouble { idx_faces } => match *autre {
                Combinaison::BrelanDouble { idx_faces: autres_faces } => {
                    let r = idx_faces[0] == autres_faces[0] && idx_faces[1] == autres_faces[1];
                    assert(r == (idx_faces =~= autres_faces));
                    r
                },
                _ => false,
            },
            Combinaison::BrelanSimple { idx_face, nb_un, nb_cinq } => match *autre {
                Combinaison::BrelanSimple { idx_face: f, nb_un: u, nb_cinq: c } => idx_face == f
                    && nb_un == u && nb_cinq == c,
                _ => false,
            },
            Combinaison::FacesSimples { nb_un, nb_cinq } => match *autre {
                Combinaison::FacesSimples { nb_un: u, nb_cinq: c } => nb_un == u && nb_cinq == c,
                _ => false,
            },
        }
    }

    /// The name of the combination, as in "Suite", "3Paires",
    /// "Brelan2+Brelan4", "Brelan6+2x1+1x5" and "1x1+2x5". Faces are named by
    /// what they show, one more than their index.
    pub open spec fn texte(self) -> Seq<char> {
        match self {
            Combinaison::Suite => "Suite"@,
            Combinaison::TriplePaire => "3Paires"@,
            Combinaison::BrelanDouble { idx_faces } => "Brelan"@ + en_chiffres(
                (idx_faces[0] + 1) as nat,
            ) + "+Brelan"@ + en_chiffres((idx_faces[1] + 1) as nat),
            Combinaison::BrelanSimple { idx_face, nb_un, nb_cinq } => "Brelan"@ + en_chiffres(
                (idx_face + 1) as nat,
            ) + (if nb_un > 0 {
                "+"@
            } else {
                Seq::empty()
            }) + texte_des_faces(nb_un as nat, "1"@) + (if nb_cinq > 0 {
                "+"@
            } else {
                Seq::empty()
            }) + texte_des_faces(nb_cinq as nat, "5"@),
            Combinaison::FacesSimples { nb_un, nb_cinq } => texte_des_faces(nb_un as nat, "1"@) + (
            if nb_un > 0 && nb_cinq > 0 {
                "+"@
            } else {
                Seq::empty()
            }) + texte_des_faces(nb_cinq as nat, "5"@),
        }
    }

    /// Writes the name of the combination.
    pub fn libelle(&self) -> (nom: String)
        ensures
            nom@ == self.texte(),
    {
        match *self {
            Combinaison::Suite => String::from_str("Suite"),
            Combinaison::TriplePaire => String::from_str("3Paires"),
            Combinaison::BrelanDouble { idx_faces } => {
                let mut nom = String::from_str("Brelan");
                let premiere = ecrire_nombre(idx_faces[0] as u128 + 1);
                nom.append(premiere.as_str());
                nom.append("+Brelan");
                let seconde = ecrire_nombre(idx_faces[1] as u128 + 1);
                nom.append(seconde.as_str());
                nom
            },
            Combinaison::BrelanSimple { idx_face, nb_un, nb_cinq } => {
                let mut nom = String::from_str("Brelan");
                let face = ecrire_nombre(idx_face as u128 + 1);
                nom.append(face.as_str());
                if nb_un > 0 {
                    nom.append("+");
                }
                ecrire_faces(&mut nom, nb_un, "1");
                if nb_cinq > 0 {
                    nom.append("+");
                }
                ecrire_faces(&mut nom, nb_cinq, "5");
                assert(nom@ =~= self.texte());
                nom
            },
            Combinaison::FacesSimples { nb_un, nb_cinq } => {
                let mut nom = String::from_str("");
                proof {
                    reveal_strlit("");
                }
                ecrire_faces(&mut nom, nb_un, "1");
                if nb_un > 0 && nb_cinq > 0 {
                    nom.append("+");
                }
                ecrire_faces(&mut nom, nb_cinq, "5");
                assert(nom@ =~= self.texte());
                nom
            },
        }
    }

}

/// Writes a number in base ten.
pub fn ecrire_nombre(n: u128) -> (texte: String)
    ensures
        texte@ == en_chiffres(n as nat),
    decreases n,
{
    let unites = n % 10;
    let dernier = if unites == 0 {
        "0"
    } else if unites == 1 {
        "1"
    } else if unites == 2 {
        "2"
    } else if unites == 3 {
        "3"
    } else if unites == 4 {
        "4"
    } else if unites == 5 {
        "5"
    } else if unites == 6 {
        "6"
    } else if unites == 7 {
        "7"
    } else if unites == 8 {
        "8"
    } else {
        "9"
    };
    proof {
        reveal_strlit("0");
        reveal_strlit("1");
        reveal_strlit("2");
        reveal_strlit("3");
        reveal_strlit("4");
        reveal_strlit("5");
        reveal_strlit("6");
        reveal_strlit("7");
        reveal_strlit("8");
        reveal_strlit("9");
        assert(dernier@ =~= seq![chiffre(unites as int)]);
    }
    if n < 10 {
        String::from_str(dernier)
    } else {
        let texte = ecrire_nombre(n / 10).concat(dernier);
        assert(texte@ =~= en_chiffres(n as nat));
        texte
    }
}

/// Writes after `nom` how many dice show a face, if any does.
fn ecrire_faces(nom: &mut String, nb: usize, face: &str)
    ensures
        final(nom)@ == old(nom)@ + texte_des_faces(nb as nat, face@),
{
    if nb > 0 {
        let nombre = ecrire_nombre(nb as u128);
        nom.append(nombre.as_str());
        nom.append("x");
        nom.append(face);
        assert(nom@ =~= old(nom)@ + texte_des_faces(nb as nat, face@));
    } else {
        assert(nom@ =~= old(nom)@ + texte_des_faces(nb as nat, face@));
    }
}

/// Looks up the points for a triple of the face of index `idx_face`.
fn valeur_un_brelan(idx_face: usize) -> (v: Valeur)
    requires
        idx_face < 6,
    ensures
        v == valeur_brelan(idx_face as int),
{
    let valeurs_brelans: [Valeur; 6] = [1000, 200, 300, 400, 500, 600];
    valeurs_brelans[idx_face]
}

} // verus!
