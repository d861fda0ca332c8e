use mate::matching::{
    apply, assess, bounded_edit_distance, closest_distance, compare_candidates, coverage,
    exact_identity, fallback_queries, is_identity_exact, is_unattended_exact, names_within_reach,
    pypi_identity, sort_candidates, token_match,
};
use mate::model::{Candidate, ManagerKind, MatchKind};
use mate::normalize::{fold_fullwidth, CharacterClass, Normalized, MAX_TOKENS};

fn candidate(manager: ManagerKind, package: &str, match_name: &str) -> Candidate {
    Candidate {
        query: String::new(),
        package: package.into(),
        match_name: match_name.into(),
        manager_instance_id: format!("{}:test", manager.name()),
        manager,
        source: "test".into(),
        version: Some("1.0.0".into()),
        description: None,
        score: 0,
        match_kind: MatchKind::Unmatched,
        verified: true,
    }
}

#[test]
fn distinguishes_exact_and_case_folded_exact_matches() {
    let package = candidate(ManagerKind::Apt, "ripgrep", "ripgrep");
    assert_eq!(assess("ripgrep", &package).score, 1_000);
    let folded = assess("RIPGREP", &package);
    assert_eq!(folded.kind, MatchKind::Exact);
    assert_eq!(folded.score, 995);
}

#[test]
fn recognizes_manager_specific_canonical_identities() {
    let pypi = candidate(ManagerKind::Pip, "my-pkg-name", "my-pkg-name");
    assert_eq!(assess("My_Pkg.Name", &pypi).kind, MatchKind::CanonicalExact);

    let pacman = candidate(ManagerKind::Pacman, "extra/ripgrep", "ripgrep");
    assert_eq!(assess("ripgrep", &pacman).kind, MatchKind::CanonicalExact);
}

#[test]
fn does_not_treat_an_npm_scope_leaf_as_exact() {
    let package = candidate(ManagerKind::Npm, "@types/node", "@types/node");
    assert!(!matches!(
        assess("node", &package).kind,
        MatchKind::Exact | MatchKind::CanonicalExact
    ));
}

#[test]
fn ranks_separators_tokens_and_transpositions() {
    let separated = candidate(ManagerKind::Cargo, "serde_json", "serde_json");
    assert_eq!(assess("serde json", &separated).kind, MatchKind::NormalizedExact);

    let typo = candidate(ManagerKind::Apt, "ripgrep", "ripgrep");
    let assessment = assess("ripgrpe", &typo);
    assert_eq!(assessment.kind, MatchKind::Edit);
    assert_eq!(assessment.edit_distance, Some(1));
}

#[test]
fn short_names_do_not_use_edit_distance() {
    let package = candidate(ManagerKind::Apt, "gr", "gr");
    assert_ne!(assess("rg", &package).kind, MatchKind::Edit);
}

#[test]
fn unicode_confusables_are_not_exact() {
    let package = candidate(ManagerKind::Npm, "package", "package");
    assert!(!matches!(
        assess("p\u{430}ckage", &package).kind,
        MatchKind::Exact | MatchKind::CanonicalExact
    ));

    let kelvin = candidate(ManagerKind::Npm, "k", "k");
    assert!(!matches!(
        assess("\u{212a}", &kelvin).kind,
        MatchKind::Exact | MatchKind::CanonicalExact
    ));
}

#[test]
fn description_evidence_stays_below_name_evidence() {
    let mut by_description = candidate(ManagerKind::Pacman, "other", "other");
    by_description.description = Some("recursive ripgrep-compatible search tool".into());
    let description = assess("ripgrep", &by_description);
    assert_eq!(description.kind, MatchKind::Description);

    let prefix = candidate(ManagerKind::Pacman, "extra/ripgrep-all", "ripgrep-all");
    assert!(assess("ripgrep", &prefix).kind > description.kind);
}

#[test]
fn fallback_queries_are_bounded_and_deterministic() {
    assert_eq!(fallback_queries("ripgrpe"), ["rip", "pgr", "rpe"]);
    assert!(fallback_queries("json parser").len() <= 3);
    assert!(fallback_queries("rg").is_empty());
}

#[test]
fn sorting_is_deterministic_after_relevance() {
    let mut first = candidate(ManagerKind::Apt, "ripgrep-all", "ripgrep-all");
    first.query = "ripgrep".into();
    apply("ripgrep", &mut first);
    let mut exact = candidate(ManagerKind::Apt, "ripgrep", "ripgrep");
    exact.query = "ripgrep".into();
    apply("ripgrep", &mut exact);

    let mut candidates = vec![first.clone(), exact.clone()];
    sort_candidates(&mut candidates);
    assert_eq!(candidates[0].package, "ripgrep");

    candidates.reverse();
    sort_candidates(&mut candidates);
    assert_eq!(candidates[0].package, "ripgrep");
}

#[test]
fn matching_caps_oversized_names_and_descriptions() {
    let mut package = candidate(ManagerKind::Apt, &"x".repeat(10_000), &"x".repeat(10_000));
    package.description = Some("search ".repeat(10_000));
    let _ = assess(&"y".repeat(1_000), &package);
}

#[test]
fn stronger_evidence_scores_higher() {
    let query = "ripgrep";
    let exact = assess(query, &candidate(ManagerKind::Apt, "ripgrep", "ripgrep"));
    let prefix = assess(query, &candidate(ManagerKind::Apt, "ripgrep-all", "ripgrep-all"));
    let contains = assess(query, &candidate(ManagerKind::Apt, "libripgrep", "libripgrep"));
    let nothing = assess(query, &candidate(ManagerKind::Apt, "emacs", "emacs"));
    assert!(exact.score > prefix.score);
    assert!(prefix.score > contains.score);
    assert!(contains.score > nothing.score);
    assert_eq!(nothing.kind, MatchKind::Unmatched);
}

#[test]
fn compact_names_and_tokens_match() {
    let compact = assess("serdejson", &candidate(ManagerKind::Cargo, "serde_json", "serde_json"));
    assert_eq!(compact.kind, MatchKind::CompactExact);
    let tokens = assess("json serde", &candidate(ManagerKind::Cargo, "serde_json", "serde_json"));
    assert_eq!(tokens.kind, MatchKind::Tokens);
}

#[test]
fn identities_ignore_the_case_of_ascii_letters_only() {
    assert!(exact_identity("RipGrep", "ripgrep"));
    assert!(!exact_identity("É", "é"));
    assert!(exact_identity("é", "é"));
    assert_eq!(pypi_identity("My_.Pkg"), "my-pkg");
    assert_eq!(pypi_identity("my pkg"), "");
}

#[test]
fn only_verified_identities_are_taken_without_asking() {
    let mut exact = candidate(ManagerKind::Apt, "ripgrep", "ripgrep");
    apply("ripgrep", &mut exact);
    assert!(is_identity_exact(&exact));
    assert!(is_unattended_exact(&exact));
    exact.verified = false;
    assert!(is_identity_exact(&exact));
    assert!(!is_unattended_exact(&exact));
    let mut near = candidate(ManagerKind::Apt, "ripgrep-all", "ripgrep-all");
    apply("ripgrep", &mut near);
    assert!(!is_identity_exact(&near));
}

#[test]
fn names_are_normalized() {
    let name = Normalized::new("Serde_JSON2 Ｆull", 128);
    assert_eq!(name.compact, "serdejson2full");
    assert_eq!(name.tokens, ["serde", "json", "2", "full"]);
    let camel = Normalized::new("parseJson", 128);
    assert_eq!(camel.tokens, ["parse", "json"]);
    assert_eq!(fold_fullwidth('Ａ'), 'A');
    assert_eq!(fold_fullwidth('A'), 'A');
}

#[test]
fn names_are_cut_off() {
    let name = Normalized::new("abcdef", 3);
    assert_eq!(name.compact, "abc");
    let many = Normalized::new(&"a ".repeat(100), 1_000);
    assert!(many.tokens.len() <= MAX_TOKENS);
}

#[test]
fn characters_are_classified() {
    assert_eq!(CharacterClass::of('a'), CharacterClass::of('b'));
    assert_ne!(CharacterClass::of('a'), CharacterClass::of('B'));
    assert_ne!(CharacterClass::of('1'), CharacterClass::of('a'));
    assert_ne!(CharacterClass::of('-'), CharacterClass::of('a'));
}

#[test]
fn coverage_is_a_share_of_the_span() {
    assert_eq!(coverage("rip", "ripgrep", 70), 30);
    assert_eq!(coverage("ripgrep", "ripgrep", 70), 70);
}

#[test]
fn tokens_match_in_order_or_out_of_it() {
    let query = vec!["json".to_owned(), "serde".to_owned()];
    let package = vec!["serde".to_owned(), "json".to_owned()];
    assert!(token_match(&query, &package).is_some());
    assert!(token_match(&query, &vec!["json".to_owned()]).is_none());
}

#[test]
fn distances_are_bounded_by_the_length() {
    let typo = Normalized::new("ripgrpe", 128);
    let name = Normalized::new("ripgrep", 256);
    assert_eq!(bounded_edit_distance(&typo, &name), Some(1));
    assert!(!names_within_reach(&typo, &name).is_empty());
    let far = Normalized::new("zzzzzzz", 128);
    assert_eq!(bounded_edit_distance(&far, &name), None);
    assert_eq!(closest_distance(&vec![5, 1, 3], 7), Some(1));
    assert_eq!(closest_distance(&Vec::new(), 7), None);
}

#[test]
fn candidates_that_agree_are_level() {
    let a = candidate(ManagerKind::Apt, "a", "a");
    let b = candidate(ManagerKind::Apt, "b", "b");
    assert!(compare_candidates(&a, &a).is_eq());
    assert!(compare_candidates(&a, &b).is_lt());
    assert!(compare_candidates(&b, &a).is_gt());
    let mut verified = candidate(ManagerKind::Apt, "z", "z");
    verified.score = 10;
    assert!(compare_candidates(&verified, &a).is_lt());
}

#[test]
fn edit_matches_are_one_to_three_edits_away() {
    for (query, name, distance) in [
        ("ripgrpe", "ripgrep", 1),
        ("rigrep", "ripgrep", 1),
        ("riqgreb", "ripgrep", 2),
        ("typescirtp", "typescript", 2),
        ("configuratoinmanegr", "configurationmanager", 3),
    ] {
        let assessment = assess(query, &candidate(ManagerKind::Apt, name, name));
        assert_eq!(assessment.kind, MatchKind::Edit, "{query}");
        assert_eq!(assessment.edit_distance, Some(distance), "{query}");
    }
    let token = assess("ripgrep", &candidate(ManagerKind::Apt, "the-ripgrep", "the-ripgrep"));
    assert!(token.kind != MatchKind::Edit);
}

#[test]
fn edits_are_swaps_and_single_changes() {
    let query = Normalized::new("abcdefgh", 128);
    for (name, distance) in [
        ("abcdefgh", Some(0)),
        ("bacdefgh", Some(1)),
        ("abcdefg", Some(1)),
        ("abcdefghi", Some(1)),
        ("abxdefgh", Some(1)),
        ("bacdefhg", Some(2)),
        ("bxacdefgh", None),
    ] {
        let name = Normalized::new(name, 256);
        assert_eq!(bounded_edit_distance(&query, &name), distance, "{name:?}");
    }
}

#[test]
fn normalizing_an_ascii_name_again_changes_nothing() {
    for value in ["HTTPServer2Go", "foo__Bar--9lives", "-", "", "a1b2C3", "x.Y.z0"] {
        let name = Normalized::new(value, 128);
        let again = Normalized::new(&name.joined, name.joined.len());
        assert_eq!(again.tokens, name.tokens);
        assert_eq!(again.joined, name.joined);
        assert_eq!(again.compact, name.compact);
        for token in &name.tokens {
            assert!(!token.is_empty());
            assert!(
                token.bytes().all(|byte| byte.is_ascii_lowercase())
                    || token.bytes().all(|byte| byte.is_ascii_digit())
            );
        }
    }
    assert_eq!(Normalized::new("HTTPServer2Go", 128).joined, "httpserver-2-go");
}

#[test]
fn ascii_classes_are_those_of_the_tables() {
    for byte in 0_u8..=127 {
        let c = byte as char;
        let class = if c.is_ascii_digit() {
            CharacterClass::Digit
        } else if c.is_ascii_lowercase() {
            CharacterClass::Lower
        } else if c.is_ascii_uppercase() {
            CharacterClass::Upper
        } else {
            CharacterClass::Boundary
        };
        assert_eq!(CharacterClass::of(c), class);
    }
}

#[test]
fn fallback_terms_occur_in_the_name() {
    for query in ["abc", "a-b-c", "ripgrep", "foo-barbaz", "x-longest-name", "12ab"] {
        let compact = Normalized::new(query, 128).compact;
        let terms = fallback_queries(query);
        assert_eq!(terms.is_empty(), compact.chars().count() < 4, "{query}");
        assert!(terms.iter().all(|term| compact.contains(term.as_str())));
    }
}

#[test]
fn sorting_is_level_for_every_order() {
    let mut described = candidate(ManagerKind::Apt, "a", "a");
    described.description = Some("text".into());
    let mut one = vec![
        described.clone(),
        candidate(ManagerKind::Apt, "b", "b"),
        candidate(ManagerKind::Apt, "a", "a"),
    ];
    let mut other = vec![
        candidate(ManagerKind::Apt, "a", "a"),
        described,
        candidate(ManagerKind::Apt, "b", "b"),
    ];
    sort_candidates(&mut one);
    sort_candidates(&mut other);
    for (a, b) in one.iter().zip(&other) {
        assert!(compare_candidates(a, b).is_eq());
    }
}
