use simaris::cli::{build_type_frontmatter, validate_add_flags, AddFlags, MarkKind, Relationship, UnitType};
use simaris::fts;
use simaris::lint::{ci_compare, lint_totals};
use simaris::rewrite::{compose_buffer, rewrite_outcome, RewriteOutcome};
use simaris::store::{check_migration, MigrationCounts, auto_link_targets, unstructured_first_line, backup_dir, data_dir, db_path, resolve_choice, validate_slug};

#[test]
fn validate_accepts_valid_shapes() {
    assert!(validate_slug("abc").is_ok());
    assert!(validate_slug("feat-1").is_ok());
    assert!(validate_slug("user_name").is_ok());
    assert!(validate_slug("_internal").is_ok());
    assert!(validate_slug("a").is_ok());
    let s64: String = "a".repeat(64);
    assert!(validate_slug(&s64).is_ok());
}

#[test]
fn validate_rejects_empty() {
    assert!(validate_slug("").is_err());
}

#[test]
fn validate_rejects_uppercase() {
    assert!(validate_slug("Abc").is_err());
    assert!(validate_slug("FOO").is_err());
}

#[test]
fn validate_rejects_bad_first_char() {
    assert!(validate_slug("1foo").is_err());
    assert!(validate_slug("-foo").is_err());
}

#[test]
fn validate_rejects_disallowed_chars() {
    assert!(validate_slug("a b").is_err());
    assert!(validate_slug("foo!").is_err());
    assert!(validate_slug("foo.bar").is_err());
    assert!(validate_slug("foo/bar").is_err());
    assert!(validate_slug("café").is_err());
    assert!(validate_slug("foo🙂").is_err());
}

#[test]
fn validate_rejects_uuid_shaped() {
    let v7 = uuid::Uuid::now_v7().to_string();
    assert_eq!(v7.len(), 36);
    assert!(validate_slug(&v7).is_err());
    assert!(validate_slug("00000000-0000-0000-0000-000000000000").is_err());
}

#[test]
fn validate_rejects_over_cap() {
    let s65: String = "a".repeat(65);
    assert!(validate_slug(&s65).is_err());
}

#[test]
fn validate_slug_messages() {
    assert_eq!(validate_slug("").unwrap_err(), "Slug must not be empty");
    assert_eq!(validate_slug(&"a".repeat(70)).unwrap_err(), "Slug exceeds 64-char cap (got 70)");
    assert_eq!(
        validate_slug("00000000-0000-0000-0000-000000000000").unwrap_err(),
        "Slug must not be UUID-shaped: '00000000-0000-0000-0000-000000000000'"
    );
    assert_eq!(validate_slug("Abc").unwrap_err(), "Slug first char must be [a-z_], got 'A' in 'Abc'");
    assert_eq!(validate_slug("foo.bar").unwrap_err(), "Slug char '.' not in [a-z0-9_-] (slug 'foo.bar')");
    // 36 characters with hyphens in the wrong places is an ordinary slug.
    assert!(validate_slug("0000000000-00000-0000-0000-000000000").is_err());
    assert!(validate_slug("a000000000-00000-0000-0000-000000000").is_ok());
}

#[test]
fn resolve_prefers_unit_then_slug() {
    assert_eq!(resolve_choice("x", Some("u1".into()), Some("u2".into())), Ok("u1".to_string()));
    assert_eq!(resolve_choice("x", None, Some("u2".into())), Ok("u2".to_string()));
    assert_eq!(resolve_choice("x", None, None), Err("No unit or slug matches 'x'".to_string()));
    assert_eq!(resolve_choice("", Some("u1".into()), None), Err("No unit or slug matches ''".to_string()));
}

#[test]
fn data_locations() {
    assert_eq!(data_dir(Some("/srv/s"), "/home/u", None), "/srv/s");
    assert_eq!(data_dir(None, "/home/u", None), "/home/u/.simaris");
    assert_eq!(data_dir(None, "/home/u/", Some("dev")), "/home/u/.simaris/dev");
    assert_eq!(data_dir(Some("/srv/s"), "/home/u", Some("prod")), "/srv/s");
    assert_eq!(db_path("/srv/s"), "/srv/s/sanctuary.db");
    assert_eq!(backup_dir("/srv/s/"), "/srv/s/backups");
}

#[test]
fn store_query_quotes_terms() {
    assert_eq!(fts::sanitize_fts_query("pre-push hook!"), "\"pre\" OR \"push\" OR \"hook\"");
    assert_eq!(fts::sanitize_fts_query("--- !!"), "    !!");
    assert_eq!(fts::sanitize_fts_query("Snake_Case"), "\"snake_case\"");
}

#[test]
fn type_and_relationship_names() {
    assert_eq!(UnitType::Procedure.as_str(), "procedure");
    assert_eq!(UnitType::Aspect.as_str(), "aspect");
    assert_eq!(Relationship::PartOf.as_str(), "part_of");
    assert_eq!(Relationship::SourcedFrom.as_str(), "sourced_from");
    assert_eq!(MarkKind::Outdated.as_str(), "outdated");
}

#[test]
fn add_flags_validation() {
    let none = AddFlags::default();
    assert!(!none.any_set());
    assert_eq!(validate_add_flags(UnitType::Fact, &none, None, Some("body")), Ok(()));
    assert_eq!(
        validate_add_flags(UnitType::Fact, &none, None, None),
        Err("positional <content> required when --from-file is not used".to_string())
    );
    let trig = AddFlags { trigger: Some("x".into()), ..AddFlags::default() };
    assert!(trig.any_set());
    assert!(validate_add_flags(UnitType::Procedure, &trig, None, Some("b")).is_ok());
    assert_eq!(
        validate_add_flags(UnitType::Fact, &trig, None, Some("b")),
        Err("--trigger is not valid for --type fact; valid types: procedure".to_string())
    );
    assert!(validate_add_flags(UnitType::Procedure, &trig, Some("f.md"), None)
        .unwrap_err()
        .starts_with("--from-file is mutually exclusive"));
    let refs = AddFlags { refs: vec!["r".into()], scope: Some("s".into()), ..AddFlags::default() };
    assert_eq!(
        validate_add_flags(UnitType::Idea, &refs, None, Some("b")),
        Err("--scope is not valid for --type idea; valid types: fact, lesson".to_string())
    );
    assert_eq!(
        validate_add_flags(UnitType::Principle, &refs, None, Some("b")),
        Err("--scope is not valid for --type principle; valid types: fact, lesson".to_string())
    );
    let refs_only = AddFlags { refs: vec!["r".into()], ..AddFlags::default() };
    assert_eq!(
        validate_add_flags(UnitType::Preference, &refs_only, None, Some("b")),
        Err("--ref is not valid for --type preference; valid types: procedure, aspect, fact, principle, lesson".to_string())
    );
}

#[test]
fn lint_ci_reports_regressions() {
    let prev = lint_totals(1, 2, 3, 4, 5);
    assert_eq!(prev.total, 15);
    let curr = lint_totals(2, 2, 1, 5, 5);
    let d = ci_compare(curr, Some(prev));
    assert_eq!(d.procedure_no_trigger, 1);
    assert_eq!(d.dupe, -2);
    assert_eq!(d.total, 0);
    assert_eq!(d.regressions, vec!["procedure_no_trigger", "dual_parent_divergence"]);
    assert!(d.regressed);
    let d0 = ci_compare(lint_totals(0, 0, 0, 0, 1), None);
    assert_eq!(d0.regressions, vec!["tag_variant"]);
    let same = ci_compare(curr, Some(curr));
    assert!(!same.regressed);
}

#[test]
fn rewrite_outcomes() {
    let offered = compose_buffer("u1", "idea", "hello\n", false);
    assert!(matches!(rewrite_outcome(&offered, &offered), RewriteOutcome::Unchanged));
    assert!(matches!(rewrite_outcome(&offered, "# only a header\n\n  \n"), RewriteOutcome::Empty));
    match rewrite_outcome(&offered, "# header\n\nnew body\n") {
        RewriteOutcome::Changed(s) => assert_eq!(s, "new body\n"),
        _ => panic!("expected a change"),
    }
    assert!(matches!(rewrite_outcome(&offered, &format!("{offered}   \n\n")), RewriteOutcome::Unchanged));
}

fn tags(v: &[&str]) -> Vec<String> {
    v.iter().map(|t| t.to_string()).collect()
}

#[test]
fn test_auto_link_two_shared_tags() {
    // Unit B is linked to unit A, the only other unit with tags.
    let r = auto_link_targets(&tags(&["rust", "cli", "gui"]), &vec![tags(&["rust", "cli", "perf"])]);
    assert_eq!(r, vec![0]);
}

#[test]
fn test_auto_link_one_shared_tag_no_link() {
    let r = auto_link_targets(&tags(&["rust", "gui"]), &vec![tags(&["rust", "cli"])]);
    assert!(r.is_empty());
}

#[test]
fn auto_link_needs_two_tags_on_the_unit() {
    let r = auto_link_targets(&tags(&["rust"]), &vec![tags(&["rust", "rust"])]);
    assert!(r.is_empty());
    assert!(auto_link_targets(&tags(&[]), &vec![tags(&["a", "b"])]).is_empty());
}

#[test]
fn test_auto_link_no_tags() {
    // A unit without tags, and no other tagged unit to compare with.
    assert_eq!(auto_link_targets(&tags(&[]), &vec![]).len(), 0);
}

#[test]
fn test_auto_link_multiple_matches() {
    let cands = vec![tags(&["rust", "cli"]), tags(&["rust", "cli"])];
    assert_eq!(auto_link_targets(&tags(&["rust", "cli"]), &cands).len(), 2);
}

#[test]
fn auto_link_multiple_matches_in_order() {
    let cands = vec![tags(&["rust", "cli"]), tags(&["gui"]), tags(&["cli", "rust", "x"])];
    assert_eq!(auto_link_targets(&tags(&["rust", "cli"]), &cands), vec![0, 2]);
}

#[test]
fn test_auto_link_case_insensitive() {
    let r = auto_link_targets(&tags(&["rust", "cli"]), &vec![tags(&["Rust", "CLI"])]);
    assert_eq!(r, vec![0]);
}

#[test]
fn type_frontmatter_for_procedure_lists_given_fields_in_schema_order() {
    let flags = AddFlags {
        trigger: Some("deploy fails".to_string()),
        caveat: Some("it's slow".to_string()),
        prereq: vec!["a".to_string(), "b".to_string()],
        ..AddFlags::default()
    };
    let block = build_type_frontmatter(UnitType::Procedure, &flags).unwrap();
    assert_eq!(
        block,
        "---\ntrigger: 'deploy fails'\ncaveat: 'it''s slow'\nprereq:\n  - 'a'\n  - 'b'\n---\n"
    );
}

#[test]
fn type_frontmatter_none_without_fields_or_schema() {
    assert!(build_type_frontmatter(UnitType::Fact, &AddFlags::default()).is_none());
    let flags = AddFlags { scope: Some("x".to_string()), ..AddFlags::default() };
    assert!(build_type_frontmatter(UnitType::Idea, &flags).is_none());
}

#[test]
fn unstructured_needs_long_body_without_frontmatter() {
    let long = format!("\n   \n  First real line  \n{}", "x".repeat(220));
    assert_eq!(unstructured_first_line(&long), Some("First real line".to_string()));
    assert_eq!(unstructured_first_line("short body"), None);
    let structured = format!("---\nrole: r\n---\n{}", "y".repeat(220));
    assert_eq!(unstructured_first_line(&structured), None);
    let malformed = format!("---\n- a\n---\n{}", "z".repeat(220));
    assert_eq!(unstructured_first_line(&malformed), Some("---".to_string()));
}

#[test]
fn unstructured_counts_bytes_not_chars() {
    // 100 two-byte characters: 200 bytes
    let body = "é".repeat(100);
    assert_eq!(unstructured_first_line(&body), Some(body.clone()));
    assert_eq!(unstructured_first_line(&"é".repeat(99)), None);
}

#[test]
fn ref_token_takes_the_first_word() {
    assert_eq!(simaris::store::ref_token("verifier (019d93...)"), "verifier");
    assert_eq!(simaris::store::ref_token("  spaced  out"), "spaced");
    assert_eq!(simaris::store::ref_token("   "), "   ");
}

#[test]
fn backups_are_listed_sorted_and_pruned_oldest_first() {
    let names: Vec<String> = ["sanctuary-20240102-000000.db", "notes.txt", "sanctuary-20240101-000000.db", "sanctuary-x.db-wal"]
        .iter()
        .map(|s| s.to_string())
        .collect();
    let sorted = simaris::store::list_backup_names(&names);
    assert_eq!(sorted, vec!["sanctuary-20240101-000000.db", "sanctuary-20240102-000000.db"]);
    assert_eq!(simaris::store::backups_to_prune(&sorted, 1), vec!["sanctuary-20240101-000000.db"]);
    assert!(simaris::store::backups_to_prune(&sorted, 10).is_empty());
}

#[test]
fn migration_check_requires_units_and_inbox_to_carry_over() {
    let ok = MigrationCounts {
        old_units: 3, new_units: 3, old_inbox: 1, new_inbox: 1,
        old_links: 4, new_links: 2, old_marks: 0, new_marks: 0,
    };
    assert!(check_migration(&ok).is_ok());
    let lost_unit = MigrationCounts { new_units: 2, ..ok };
    assert_eq!(
        check_migration(&lost_unit),
        Err("Migration verification failed: units count mismatch (3 vs 2)".to_string())
    );
    let lost_links = MigrationCounts { new_links: 0, ..ok };
    assert_eq!(
        check_migration(&lost_links),
        Err("Migration verification failed: all 4 links were lost".to_string())
    );
    let lost_marks = MigrationCounts { old_marks: 5, new_marks: 0, ..ok };
    assert_eq!(
        check_migration(&lost_marks),
        Err("Migration verification failed: all 5 marks were lost".to_string())
    );
}

#[test]
fn set_rejects_invalid_slug() {
    assert!(validate_slug("Bad!").is_err());
    assert!(validate_slug("").is_err());
}

#[test]
fn resolve_returns_existing_unit_id() {
    let id = "0190a1b2-0000-7000-8000-000000000001".to_string();
    assert_eq!(resolve_choice(&id, Some(id.clone()), None).unwrap(), id);
}

#[test]
fn resolve_returns_unit_id_for_slug() {
    let id = "0190a1b2-0000-7000-8000-000000000001".to_string();
    assert_eq!(resolve_choice("foo", None, Some(id.clone())).unwrap(), id);
}

#[test]
fn resolve_unknown_bails_with_input() {
    let err = resolve_choice("ghost", None, None).unwrap_err();
    let msg = format!("{err:?}");
    assert!(
        msg.contains("ghost"),
        "error must include the input verbatim, got: {msg}"
    );
}

#[test]
fn resolve_empty_string_bails() {
    assert!(resolve_choice("", None, None).is_err());
}

#[test]
fn resolve_is_case_sensitive() {
    // The store looks slugs up exactly: "FOO" finds neither a unit nor the slug "foo".
    assert!(resolve_choice("FOO", None, None).is_err());
}

#[test]
fn resolve_unit_id_wins_collision() {
    let id = "0190a1b2-0000-7000-8000-000000000001".to_string();
    let other = "0190a1b2-0000-7000-8000-000000000002".to_string();
    assert_eq!(resolve_choice(&id, Some(id.clone()), Some(other)).unwrap(), id);
}

#[test]
fn resolve_after_unset_bails() {
    let id = "0190a1b2-0000-7000-8000-000000000001".to_string();
    assert_eq!(resolve_choice("foo", None, Some(id.clone())).unwrap(), id);
    assert!(resolve_choice("foo", None, None).is_err());
}
