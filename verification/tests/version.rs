use poetry_resolver::version::{version_captures, PEP440Version, Prerelease, VersionParseError};

#[test]
fn version_pattern() {
    let captures = version_captures("1.0.0").unwrap();
    assert_eq!(captures.release, "1.0.0");
}

#[test]
fn version_pattern_dev() {
    let captures = version_captures("1.0.0dev0").unwrap();
    assert_eq!(captures.release, "1.0.0");
    assert_eq!(captures.dev.unwrap(), "dev0");
}

#[test]
fn version_pattern_alpha() {
    let captures = version_captures("1.0.0a0").unwrap();
    assert_eq!(captures.pre_l.unwrap(), "a");
    assert_eq!(captures.pre_n.unwrap(), "0");
}

#[test]
fn parse_version() {
    assert_eq!(PEP440Version::from_str("0.0.0"), Ok(PEP440Version::zero()));
    assert_eq!(PEP440Version::from_str("1.0.0"), Ok(PEP440Version::one()));
    assert_eq!(
        PEP440Version::from_str("1.0.0dev0"),
        Ok(PEP440Version::one().bump_dev())
    );
    assert_eq!(
        PEP440Version::from_str("1.0.0post0"),
        Ok(PEP440Version::one().bump_post())
    );
    assert_eq!(
        PEP440Version::from_str("1.0.0a0"),
        Ok(PEP440Version {
            pre: Some((Prerelease::Alpha, 0)),
            ..PEP440Version::one()
        })
    );
    assert_eq!(
        PEP440Version::from_str("0.0.0a0"),
        Ok(PEP440Version {
            pre: Some((Prerelease::Alpha, 0)),
            ..PEP440Version::zero()
        })
    );
}

#[test]
fn format_version() {
    assert_eq!(PEP440Version::zero().to_string(), "0.0.0");
    assert_eq!(
        PEP440Version::one().pre_release(Prerelease::Alpha).to_string(),
        "1.0.0a0"
    );
    assert_eq!(
        PEP440Version::one().pre_release(Prerelease::Beta).to_string(),
        "1.0.0b0"
    );
    assert_eq!(
        PEP440Version::one()
            .pre_release(Prerelease::ReleaseCandidate)
            .to_string(),
        "1.0.0rc0"
    );
    assert_eq!(PEP440Version::zero().bump_post().to_string(), "0.0.0post0");
    assert_eq!(PEP440Version::zero().bump_dev().to_string(), "0.0.0dev0");
}

#[test]
fn bump_patch() {
    let version = PEP440Version::zero();
    assert_eq!(version.bump(), version.bump_patch());
}

#[test]
fn bump_minor() {
    let version = PEP440Version::zero();
    assert_eq!(version.bump_minor(), PEP440Version::new(0, 1, 0));
}

#[test]
fn bump_major() {
    let version = PEP440Version::zero();
    assert_eq!(version.bump_major(), PEP440Version::one());
}

#[test]
fn bump_post() {
    let version = PEP440Version::zero().bump_post();
    assert_eq!(version.bump(), version.bump_post())
}

#[test]
fn bump_dev() {
    let version = PEP440Version::zero().bump_dev();
    assert_eq!(
        version.bump(),
        PEP440Version {
            major: 0,
            minor: 0,
            patch: 0,
            epoch: 0,
            pre: None,
            post: None,
            dev: Some(1)
        }
    )
}

#[test]
fn bump_post_dev() {
    let version = PEP440Version::zero().bump_post().bump_dev();
    assert_eq!(
        version.bump(),
        PEP440Version {
            major: 0,
            minor: 0,
            patch: 0,
            epoch: 0,
            pre: None,
            post: Some(0),
            dev: Some(1)
        }
    )
}

#[test]
fn parse_version_with_epoch_and_local() {
    // The epoch prefix is read into the epoch field; the local segment is
    // accepted and discarded.
    assert_eq!(
        PEP440Version::from_str("2!1.2.3+abc.def"),
        Ok(PEP440Version {
            epoch: 2,
            ..PEP440Version::new(1, 2, 3)
        })
    );
    assert_eq!(PEP440Version::from_str("v1.2.3"), Ok(PEP440Version::new(1, 2, 3)));
}

#[test]
fn epoch_leads_the_ordering() {
    let old_scheme = PEP440Version::new(2024, 1, 1);
    let new_scheme = PEP440Version {
        epoch: 1,
        ..PEP440Version::new(1, 0, 0)
    };
    assert!(old_scheme.lt(&new_scheme));
    assert!(!new_scheme.lt(&old_scheme));
}

#[test]
fn bare_tags_default_their_counters() {
    assert_eq!(
        PEP440Version::from_str("1.0.0a"),
        Ok(PEP440Version {
            pre: Some((Prerelease::Alpha, 0)),
            ..PEP440Version::one()
        })
    );
    assert_eq!(
        PEP440Version::from_str("1.0.0post"),
        Ok(PEP440Version {
            post: Some(0),
            ..PEP440Version::one()
        })
    );
    assert_eq!(
        PEP440Version::from_str("1.0.0dev"),
        Ok(PEP440Version {
            dev: Some(0),
            ..PEP440Version::one()
        })
    );
    // The bare dash shorthand names a post release.
    assert_eq!(
        PEP440Version::from_str("1.0.0-7"),
        Ok(PEP440Version {
            post: Some(7),
            ..PEP440Version::one()
        })
    );
}

#[test]
fn parse_version_pads_short_releases() {
    assert_eq!(PEP440Version::from_str("1"), Ok(PEP440Version::new(1, 0, 0)));
    assert_eq!(PEP440Version::from_str("1.2"), Ok(PEP440Version::new(1, 2, 0)));
    assert_eq!(PEP440Version::from_str("1.2.3.4"), Ok(PEP440Version::new(1, 2, 3)));
}

#[test]
fn parse_version_rejects_garbage() {
    assert_eq!(
        PEP440Version::from_str(""),
        Err(VersionParseError::NotThreeParts {
            full_version: String::new()
        })
    );
    assert!(PEP440Version::from_str("abc").is_err());
    assert!(PEP440Version::from_str("1.0.0zzz").is_err());
}

#[test]
fn parse_version_counter_overflow() {
    let r = PEP440Version::from_str("1.0.0dev99999999999999999999");
    match r {
        Err(VersionParseError::ParseIntError { version_part, .. }) => {
            assert_eq!(version_part, "99999999999999999999");
        }
        other => panic!("expected a counter overflow, got {:?}", other),
    }
}

#[test]
fn prerelease_tag_names() {
    assert_eq!(Prerelease::from_str("alpha"), Ok(Prerelease::Alpha));
    assert_eq!(Prerelease::from_str("b"), Ok(Prerelease::Beta));
    assert_eq!(Prerelease::from_str("preview"), Ok(Prerelease::ReleaseCandidate));
    assert!(Prerelease::from_str("zzz").is_err());
}

#[test]
fn display_parse_round_trip() {
    let samples = vec![
        PEP440Version::new(1, 2, 3),
        PEP440Version::new(0, 0, 0).bump_dev(),
        PEP440Version::new(9, 8, 7).bump_post(),
        PEP440Version {
            pre: Some((Prerelease::ReleaseCandidate, 4)),
            ..PEP440Version::new(2, 0, 1)
        },
        PEP440Version {
            pre: Some((Prerelease::Beta, 1)),
            post: Some(2),
            dev: Some(3),
            ..PEP440Version::new(10, 20, 30)
        },
    ];
    for v in samples {
        assert_eq!(PEP440Version::from_str(&v.to_string()), Ok(v));
    }
}

#[test]
fn ordering_of_releases() {
    let a = PEP440Version::new(1, 0, 0);
    let b = PEP440Version::new(1, 0, 1);
    let c = PEP440Version::new(1, 1, 0);
    let d = PEP440Version::new(2, 0, 0);
    assert!(a.lt(&b));
    assert!(b.lt(&c));
    assert!(c.lt(&d));
}

#[test]
fn ordering_dev_sorts_after_plain() {
    // Under this model's rule an absent counter sorts first, so a dev
    // release of a version does not compare below the plain version.
    let dev0 = PEP440Version {
        dev: Some(0),
        ..PEP440Version::one()
    };
    let plain = PEP440Version::one();
    assert!(!dev0.lt(&plain));
    assert!(plain.lt(&dev0));
    // The pre-release marker does not take part in the ordering.
    let alpha = PEP440Version {
        pre: Some((Prerelease::Alpha, 0)),
        ..PEP440Version::one()
    };
    assert!(alpha.same_precedence(&plain));
}
