use math_genealogy::parser::dissertation_from_text;
use math_genealogy::parser::id_in_href;
use math_genealogy::parser::normalize_name;
use math_genealogy::parser::parse_name;
use math_genealogy::parser::parse_year;
use math_genealogy::parser::parse_year_text;
use math_genealogy::parser::student_from_row;
use math_genealogy::parser::trim_text;
use math_genealogy::parser::Id;

#[test]
fn parse_name_reorders_surname_first() {
    assert_eq!(parse_name("Tso, Tai-Yih"), "Tai-Yih Tso");
    assert_eq!(parse_name("Knuth, Donald Ervin"), "Donald Ervin Knuth");
}

#[test]
fn parse_name_without_comma_trims() {
    assert_eq!(parse_name("  Rajesh Pereira "), "Rajesh Pereira");
    assert_eq!(parse_name("Euler"), "Euler");
}

#[test]
fn parse_name_with_two_commas() {
    assert_eq!(parse_name("a, b, c"), "b c a");
}

#[test]
fn trim_text_strips_both_ends() {
    assert_eq!(trim_text("  x y\t\n"), "x y");
    assert_eq!(trim_text(" \t "), "");
    assert_eq!(trim_text("plain"), "plain");
}

#[test]
fn parse_year_text_exact_values() {
    assert_eq!(parse_year_text("1963"), Some(1963));
    assert_eq!(parse_year_text("2003"), Some(2003));
    assert_eq!(parse_year_text("-32768"), Some(-32768));
    assert_eq!(parse_year_text("+7"), Some(7));
    assert_eq!(parse_year_text("32768"), None);
    assert_eq!(parse_year_text("99999999999999"), None);
    assert_eq!(parse_year_text(""), None);
    assert_eq!(parse_year_text("12a"), None);
    assert_eq!(parse_year_text("a12"), None);
    assert_eq!(parse_year_text("+"), None);
}

#[test]
fn parse_year_takes_first_parsable_text() {
    let texts = vec![
        "Ph.D.".to_string(),
        "California Institute of Technology".to_string(),
        " 1963 ".to_string(),
    ];
    assert_eq!(parse_year(&texts), Some(1963));

    let none = vec!["Ph.D.".to_string(), "no digits here".to_string()];
    assert_eq!(parse_year(&none), None);
}

#[test]
fn normalize_name_collapses_whitespace() {
    assert_eq!(normalize_name("  Donald \t Ervin \n Knuth  "), "Donald Ervin Knuth");
    assert_eq!(normalize_name("single"), "single");
    assert_eq!(normalize_name("   "), "");
}

#[test]
fn dissertation_text_empty_becomes_none() {
    assert_eq!(dissertation_from_text("   \n "), None);
    assert_eq!(
        dissertation_from_text(" Trace Vectors in Matrix Analysis "),
        Some("Trace Vectors in Matrix Analysis".to_string())
    );
}

#[test]
fn id_in_href_reads_the_marker() {
    assert_eq!(id_in_href("id.php?id=235835"), Some(Some(Id(235835))));
    assert_eq!(id_in_href("https://example.org/id.php?id=190372&x=1"), Some(Some(Id(190372))));
    assert_eq!(id_in_href("index.html"), None);
    assert_eq!(id_in_href("id.php?id="), None);
    assert_eq!(id_in_href("id.php?id=99999999999"), Some(None));
    assert_eq!(id_in_href("xid.php?id=12ab"), Some(Some(Id(12))));
}

#[test]
fn id_in_href_at_the_identifier_boundary() {
    assert_eq!(id_in_href("id.php?id=2147483647"), Some(Some(Id(2147483647))));
    assert_eq!(id_in_href("id.php?id=2147483648"), Some(None));
}

#[test]
fn parse_year_text_at_the_year_boundary() {
    assert_eq!(parse_year_text("32767"), Some(32767));
    assert_eq!(parse_year_text("-32769"), None);
}

#[test]
fn student_from_row_builds_the_stub() {
    let student = student_from_row(
        "Hutchinson, George",
        "id.php?id=235835",
        Some(" University of Guelph "),
        Some(" 2018 "),
    )
    .unwrap();
    assert_eq!(student.name, "George Hutchinson");
    assert_eq!(student.id, Some(Id(235835)));
    assert_eq!(student.school, Some("University of Guelph".to_string()));
    assert_eq!(student.year, Some(2018));
}

#[test]
fn student_row_without_marker_is_skipped() {
    assert!(student_from_row("Doe, Jane", "about.html", None, None).is_none());
}

#[test]
fn student_row_with_unparsable_year() {
    let student = student_from_row("Roe, John", "id.php?id=5", None, Some("unknown")).unwrap();
    assert_eq!(student.id, Some(Id(5)));
    assert_eq!(student.year, None);
    assert_eq!(student.school, None);
}
