use unscan::font_history::{
    birth_year_of, canonical_family, canonical_of, era_exists_for_font, font_birth_year,
};

#[test]
fn test_known_birth() {
    assert_eq!(font_birth_year("Comic Sans MS", "ComicSansMS"), Some(1994));
    assert_eq!(font_birth_year("Times New Roman", "TimesNewRomanPSMT"), Some(1931));
    // Carlito is metric-compatible clone of Calibri, so effective birth is Calibri's 2007
    assert_eq!(font_birth_year("Carlito", "Carlito-Regular"), Some(2007));
    assert_eq!(font_birth_year("TeX Gyre Termes", "TeXGyreTermes-Regular"), Some(1931)); // canonicalized to times new roman via clone map -> 1931
    assert_eq!(font_birth_year("Nimbus Sans L", "NimbusSanL-Regu"), Some(1957)); // via helvetica
    assert_eq!(font_birth_year("Liberation Sans", "LiberationSans-Regular"), Some(1982)); // via arial
}

#[test]
fn test_era_exists() {
    // Comic Sans 1994 did NOT exist in 1985 era
    assert!(!era_exists_for_font(1994, 1985));
    // But did exist in 1996 era
    assert!(era_exists_for_font(1994, 1996));
    // Times 1931 existed in all eras
    assert!(era_exists_for_font(1931, 1985));
    assert!(era_exists_for_font(1931, 2007));
}

#[test]
fn test_unknown_skipped() {
    assert_eq!(font_birth_year("SomeFutureFont XYZ 2050", "SomeFutureFont"), None);
}

#[test]
fn test_canonical() {
    assert_eq!(canonical_family("Carlito"), "calibri");
    assert_eq!(canonical_family("Nimbus Sans L"), "helvetica");
    assert_eq!(canonical_family("Source Sans 3"), "source sans 3"); // no alias, stays itself
}

#[test]
fn longest_key_wins_and_the_first_of_equal_length() {
    // "courier prime" is longer than "courier"
    assert_eq!(font_birth_year("Courier Prime", ""), Some(2013));
    assert_eq!(birth_year_of("tex gyre termes", ""), Some(1931));
    // the PostScript name is searched too
    assert_eq!(font_birth_year("???", "Consolas-Bold"), Some(2005));
    // ... and its keys count like those of the family
    assert_eq!(font_birth_year("Georgia", "Consolas-Bold"), Some(2005));
    assert_eq!(font_birth_year("Inter", "Times New Roman"), Some(1931));
    assert_eq!(font_birth_year("Times New Roman", "Inter"), Some(1931));
    // a clone of a family that the table does not know has its own year
    assert_eq!(font_birth_year("TeX Gyre Bonum", ""), Some(2006));
    // matching ignores case
    assert_eq!(font_birth_year("GEORGIA", ""), Some(1993));
    // "eb garamond" beats "garamond"
    assert_eq!(font_birth_year("EB Garamond", "EBGaramond"), Some(2011));
}

#[test]
fn era_boundary_is_inclusive() {
    assert!(era_exists_for_font(1994, 1994));
    assert!(!era_exists_for_font(1995, 1994));
}

#[test]
fn a_canonical_family_stands_for_itself() {
    for name in ["Carlito", "Liberation Serif", "TeX Gyre Schola", "Source Sans 3", "Ünlü Sans"] {
        let once: String = canonical_family(name);
        assert_eq!(canonical_family(&once), once);
        assert_eq!(canonical_of(&once), once);
    }
    assert_eq!(canonical_of("tinos"), "times new roman");
}

#[test]
fn a_clone_has_the_year_of_its_family() {
    for name in ["Carlito", "Tinos", "ÉTUDE NIMBUS SANS", "TeX Gyre Pagella"] {
        let canon: String = canonical_family(name);
        let known: Option<u16> = font_birth_year(&canon, "");
        assert!(known.is_some());
        assert_eq!(font_birth_year(name, "Libre Baskerville"), known);
    }
}
