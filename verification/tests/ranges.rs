use poetry_resolver::parse_dependency;
use poetry_resolver::ranges::VersionRange;
use poetry_resolver::specifier::{compare_to_range, parse_specifier, Compare};
use poetry_resolver::version::PEP440Version;

#[test]
fn test_compare_to_range() {
    let range = compare_to_range(Compare::GreaterOrEqual, PEP440Version::zero());
    assert_eq!(range, VersionRange::any());
}

#[test]
fn test_parse_specifier_lt() {
    let range = parse_specifier("<4.0.0").unwrap();
    assert_eq!(
        range,
        VersionRange::strictly_lower_than(PEP440Version::new(4, 0, 0))
    )
}

#[test]
fn test_parse_specificer_gte() {
    let range = parse_specifier(">=3.0.2").unwrap();
    assert_eq!(range, VersionRange::higher_than(PEP440Version::new(3, 0, 2)));
}

#[test]
fn test_range_set_operation() {
    let range: VersionRange = VersionRange::higher_than(PEP440Version::new(3, 0, 2))
        .intersection(&VersionRange::strictly_lower_than(PEP440Version::new(4, 0, 0)));
    assert_eq!(
        range,
        VersionRange::between(PEP440Version::new(3, 0, 2), PEP440Version::new(4, 0, 0))
    );
}

#[test]
fn test_parsing_chardet() {
    let require = "chardet (<4.0.0,>=3.0.2)";
    let range = parse_dependency(require).unwrap();
    assert_eq!(
        range,
        (
            "chardet".into(),
            VersionRange::between(PEP440Version::new(3, 0, 2), PEP440Version::new(4, 0, 0))
        )
    );
}

#[test]
fn test_parsing_idna() {
    let require = "idna (<3.0.0,>=2.5.0)";
    let range = parse_dependency(require).unwrap();
    assert_eq!(
        range,
        (
            "idna".into(),
            VersionRange::between(PEP440Version::new(2, 5, 0), PEP440Version::new(3, 0, 0))
        )
    )
}

#[test]
fn test_parsing_pyopenssl() {
    let require = "pyOpenSSL (>=0.14.0) ; extra == 'security'";
    let range = parse_dependency(require);
    assert_eq!(range, None)
}

#[test]
fn test_parsing_without_constrains() {
    let require = "pytz";
    let range = parse_dependency(require).unwrap();
    assert_eq!(range, ("pytz".into(), VersionRange::any()));
}

fn samples() -> Vec<PEP440Version> {
    vec![
        PEP440Version::zero(),
        PEP440Version::new(0, 9, 9),
        PEP440Version::new(1, 0, 0),
        PEP440Version::new(1, 5, 0),
        PEP440Version::new(2, 0, 0),
        PEP440Version::new(2, 0, 0).bump_post(),
        PEP440Version::new(3, 1, 4),
        PEP440Version::new(7, 0, 0).bump_dev(),
    ]
}

#[test]
fn union_is_commutative_on_samples() {
    let a = VersionRange::between(PEP440Version::new(1, 0, 0), PEP440Version::new(2, 0, 0));
    let b = VersionRange::higher_than(PEP440Version::new(3, 0, 0));
    let ab = a.union(&b);
    let ba = b.union(&a);
    for v in samples() {
        assert_eq!(ab.contains(&v), ba.contains(&v));
        assert_eq!(ab.contains(&v), a.contains(&v) || b.contains(&v));
    }
}

#[test]
fn intersection_is_commutative_and_associative_on_samples() {
    let a = VersionRange::higher_than(PEP440Version::new(1, 0, 0));
    let b = VersionRange::strictly_lower_than(PEP440Version::new(3, 0, 0));
    let c = VersionRange::exact(PEP440Version::new(2, 0, 0)).negate();
    let ab_c = a.intersection(&b).intersection(&c);
    let a_bc = a.intersection(&b.intersection(&c));
    let ba = b.intersection(&a);
    for v in samples() {
        assert_eq!(a.intersection(&b).contains(&v), ba.contains(&v));
        assert_eq!(ab_c.contains(&v), a_bc.contains(&v));
        assert_eq!(
            ab_c.contains(&v),
            a.contains(&v) && b.contains(&v) && c.contains(&v)
        );
    }
}

#[test]
fn double_negation_gives_the_same_versions() {
    let r = VersionRange::between(PEP440Version::new(1, 2, 0), PEP440Version::new(4, 0, 0))
        .union(&VersionRange::exact(PEP440Version::new(9, 0, 0)));
    let nn = r.negate().negate();
    for v in samples() {
        assert_eq!(r.contains(&v), nn.contains(&v));
        assert_ne!(r.contains(&v), r.negate().contains(&v));
    }
}

#[test]
fn empty_and_universal_ranges() {
    assert!(VersionRange::none().is_empty());
    assert!(!VersionRange::any().is_empty());
    assert!(VersionRange::any().contains(&PEP440Version::new(7, 7, 7)));
    assert!(!VersionRange::none().contains(&PEP440Version::zero()));
    // An empty constructed interval.
    assert!(VersionRange::between(PEP440Version::new(2, 0, 0), PEP440Version::new(1, 0, 0))
        .is_empty());
    assert!(VersionRange::strictly_lower_than(PEP440Version::zero()).is_empty());
}

#[test]
fn exact_range_membership() {
    let r = VersionRange::exact(PEP440Version::new(1, 2, 3));
    assert!(r.contains(&PEP440Version::new(1, 2, 3)));
    assert!(!r.contains(&PEP440Version::new(1, 2, 4)));
    let not_r = r.negate();
    assert!(!not_r.contains(&PEP440Version::new(1, 2, 3)));
    assert!(not_r.contains(&PEP440Version::new(1, 2, 4)));
}

#[test]
fn lowest_version_is_a_lower_bound() {
    let r = VersionRange::between(PEP440Version::new(3, 0, 2), PEP440Version::new(4, 0, 0));
    assert_eq!(r.lowest_version(), PEP440Version::new(3, 0, 2));
    assert_eq!(VersionRange::none().lowest_version(), PEP440Version::zero());
}

#[test]
fn exclusive_bounds_can_leave_nothing_between() {
    // No version sits strictly between a version and its dev release, so
    // the open-open overlap is empty; one patch later there is room.
    let gt = parse_specifier(">2.0.0").unwrap();
    let lt_dev = parse_specifier("<2.0.0dev0").unwrap();
    assert!(gt.intersection(&lt_dev).is_empty());
    let lt_patch = parse_specifier("<2.0.1").unwrap();
    let between = gt.intersection(&lt_patch);
    assert!(!between.is_empty());
    assert!(between.contains(&PEP440Version::new(2, 0, 0).bump_post()));
    assert!(between.check_wf());
}

#[test]
fn name_stops_at_the_parenthesis() {
    let range = parse_dependency("foo(>=1.0.0)").unwrap();
    assert_eq!(
        range,
        (
            "foo".into(),
            VersionRange::higher_than(PEP440Version::new(1, 0, 0))
        )
    );
}

#[test]
fn malformed_specifier_chunks_fail_the_line() {
    assert_eq!(parse_dependency("foo (bogus)"), None);
    assert_eq!(parse_dependency("foo (>=1.0.0,bogus)"), None);
    assert_eq!(parse_dependency("foo (>=not.a.version)"), None);
}

#[test]
fn comparator_names() {
    assert_eq!(Compare::from_str("~="), Ok(Compare::Compatible));
    assert_eq!(Compare::from_str("=="), Ok(Compare::Matching));
    assert_eq!(Compare::from_str("!="), Ok(Compare::Exclusion));
    assert_eq!(Compare::from_str("<="), Ok(Compare::LessOrEqual));
    assert_eq!(Compare::from_str(">="), Ok(Compare::GreaterOrEqual));
    assert_eq!(Compare::from_str("<"), Ok(Compare::StrictLess));
    assert_eq!(Compare::from_str(">"), Ok(Compare::StrictGreater));
    assert_eq!(Compare::from_str("==="), Ok(Compare::ArbitraryEqual));
    assert_eq!(Compare::from_str("=>"), Err(()));
}

#[test]
fn specifier_comparators() {
    let v = PEP440Version::new(2, 0, 0);
    let le = parse_specifier("<=2.0.0").unwrap();
    assert!(le.contains(&v));
    assert!(le.contains(&PEP440Version::new(1, 9, 9)));
    assert!(!le.contains(&PEP440Version::new(2, 0, 1)));
    let gt = parse_specifier(">2.0.0").unwrap();
    assert!(!gt.contains(&v));
    assert!(gt.contains(&PEP440Version::new(2, 0, 1)));
    let ne = parse_specifier("!=2.0.0").unwrap();
    assert!(!ne.contains(&v));
    assert!(ne.contains(&PEP440Version::new(2, 0, 1)));
    let eq = parse_specifier("==2.0.0").unwrap();
    assert!(eq.contains(&v));
    assert!(!eq.contains(&PEP440Version::new(2, 0, 1)));
    // A malformed version part is rejected rather than accepted loosely.
    assert_eq!(parse_specifier(">=not.a.version"), None);
    assert_eq!(parse_specifier("1.0.0"), None);
}
