use addrsync::contact::{LocalContact, RemoteContact};
use addrsync::engine::{
    adjusted_nickname, classify_emails, confirms_overwrite, fetch_field_mask,
    get_related_apersons, pair_is_identical, parse_update_source, plan_remote_write,
    remove_related_apersons, resolve_common_divergence, resolve_local_only, resolve_remote_only,
    RemoteOp, SyncError, UpdateSource, write_field_mask,
};

fn local(nickname: &str, name: &str, email: &str, fcc: &str, note: &str) -> LocalContact {
    LocalContact {
        nickname: nickname.to_string(),
        display_name: name.to_string(),
        email: email.to_string(),
        fcc: fcc.to_string(),
        note: note.to_string(),
    }
}

fn remote(
    resource_id: Option<&str>,
    name: Option<&str>,
    nickname: Option<&str>,
    note: Option<&str>,
    emails: &[&str],
) -> RemoteContact {
    RemoteContact {
        resource_id: resource_id.map(|s| s.to_string()),
        names: name.map(|s| vec![Some(s.to_string())]),
        organizations: None,
        nicknames: nickname.map(|s| vec![Some(s.to_string())]),
        biographies: note.map(|s| vec![Some(s.to_string())]),
        email_addresses: Some(emails.iter().map(|e| Some(e.to_string())).collect()),
    }
}

#[test]
fn classification_partitions_the_emails() {
    let locals = vec![
        local("A", "A", "a", "", ""),
        local("B", "B", "b", "", ""),
        local("C", "C", "c", "", ""),
    ];
    let remotes = vec![
        remote(None, Some("B"), None, None, &["b"]),
        remote(None, Some("CD"), None, None, &["c", "d"]),
    ];
    let groups = classify_emails(&locals, &remotes);
    assert_eq!(groups.remote_only, vec!["d".to_string()]);
    assert_eq!(groups.local_only, vec!["a".to_string()]);
    assert_eq!(groups.common, vec!["b".to_string(), "c".to_string()]);
}

#[test]
fn classification_skips_empty_emails_and_duplicates() {
    let locals = vec![
        local("A", "A", "", "", ""),
        local("B", "B", "b", "", ""),
        local("B2", "B2", "b", "", ""),
    ];
    let remotes = vec![remote(None, Some("X"), None, None, &["", "x", "x"])];
    let groups = classify_emails(&locals, &remotes);
    assert_eq!(groups.remote_only, vec!["x".to_string()]);
    assert_eq!(groups.local_only, vec!["b".to_string()]);
    assert!(groups.common.is_empty());
}

#[test]
fn identical_pair_short_circuits() {
    let a = local("Doe", "Jane Doe", "jane@x.com", "", "memo");
    let g = remote(None, Some("Jane Doe"), Some("JD"), Some("memo"), &["jane@x.com"]);
    // The stripped local nickname equals the name's last token, so the
    // remote nickname stands in for it and the pair is identical.
    assert!(pair_is_identical(&a, &g));
}

#[test]
fn diverging_note_flags_the_pair() {
    let a = local("Doe", "Jane Doe", "jane@x.com", "", "");
    let g = remote(None, Some("Jane Doe"), Some("JD"), Some("VP"), &["jane@x.com"]);
    assert_eq!(adjusted_nickname(&a, &"JD".to_string()), "JD");
    assert!(!pair_is_identical(&a, &g));
}

#[test]
fn customized_nickname_is_compared_as_it_stands() {
    let a = local("Janey42", "Jane Doe", "jane@x.com", "", "m");
    assert_eq!(adjusted_nickname(&a, &"JD".to_string()), "Janey");
    let g = remote(None, Some("Jane Doe"), Some("Janey"), Some("m"), &["jane@x.com"]);
    assert!(pair_is_identical(&a, &g));
}

#[test]
fn remote_only_delete_needs_a_resource_id() {
    let mut apeople: Vec<LocalContact> = Vec::new();
    let g = remote(Some("people/1"), Some("Jane Doe"), None, None, &["jane@x.com"]);
    let r = resolve_remote_only(
        &mut apeople,
        &g,
        &"jane@x.com".to_string(),
        UpdateSource::FromGoogle,
    );
    match r.unwrap().unwrap() {
        RemoteOp::Delete { resource_id } => assert_eq!(resource_id, "people/1"),
        _ => panic!("expected a deletion"),
    }
    let g2 = remote(None, Some("Jane Doe"), None, None, &["jane@x.com"]);
    let r2 = resolve_remote_only(
        &mut apeople,
        &g2,
        &"jane@x.com".to_string(),
        UpdateSource::FromGoogle,
    );
    assert_eq!(r2.unwrap_err(), SyncError::MissingResourceId);
    assert!(apeople.is_empty());
}

#[test]
fn remote_only_adoption_appends_a_local_record() {
    let mut apeople: Vec<LocalContact> = Vec::new();
    let g = remote(None, Some("Jane Doe"), Some("JD"), Some("VP"), &["jane@x.com"]);
    let r = resolve_remote_only(
        &mut apeople,
        &g,
        &"jane@x.com".to_string(),
        UpdateSource::FromAddressBook,
    );
    assert!(r.unwrap().is_none());
    assert_eq!(apeople.len(), 1);
    assert_eq!(apeople[0].nickname, "Doe");
    assert_eq!(apeople[0].display_name, "Jane Doe");
    assert_eq!(apeople[0].email, "jane@x.com");
    assert_eq!(apeople[0].fcc, "");
    assert_eq!(apeople[0].note, "VP");
}

#[test]
fn local_only_push_plans_a_creation_with_name_parts() {
    let mut apeople = vec![local("Doe", "Jane Q Doe", "jane@x.com", "f", "n")];
    let a = apeople[0].clone();
    let r = resolve_local_only(&mut apeople, &a, UpdateSource::FromGoogle);
    match r.unwrap() {
        RemoteOp::Create { write } => {
            assert_eq!(write.nickname, "Doe");
            assert_eq!(write.name, "Jane Q Doe");
            assert_eq!(write.given_name.as_deref(), Some("Jane"));
            assert_eq!(write.family_name.as_deref(), Some("Doe"));
            assert_eq!(write.email, "jane@x.com");
            assert_eq!(write.note, "n");
        },
        _ => panic!("expected a creation"),
    }
    assert_eq!(apeople.len(), 1);
}

#[test]
fn single_word_name_keeps_it_as_given_name() {
    let mut apeople = vec![local("Cher", "Cher", "cher@x.com", "", "")];
    let a = apeople[0].clone();
    match resolve_local_only(&mut apeople, &a, UpdateSource::FromGoogle).unwrap() {
        RemoteOp::Create { write } => {
            assert_eq!(write.given_name.as_deref(), Some("Cher"));
            assert_eq!(write.family_name.as_deref(), Some(""));
        },
        _ => panic!("expected a creation"),
    }
}

#[test]
fn local_only_deletion_removes_every_record_with_the_email() {
    let mut apeople = vec![
        local("A", "A", "a@x.com", "", ""),
        local("B", "B", "b@x.com", "", ""),
        local("A2", "A2", "a@x.com", "", ""),
    ];
    let a = apeople[0].clone();
    let r = resolve_local_only(&mut apeople, &a, UpdateSource::FromAddressBook);
    assert!(r.is_none());
    assert_eq!(apeople.len(), 1);
    assert_eq!(apeople[0].email, "b@x.com");
}

#[test]
fn divergence_remote_wins_replaces_the_local_record() {
    let mut apeople = vec![local("Doe", "Jane Doe", "jane@x.com", "keepme", "old")];
    let a = apeople[0].clone();
    let g = remote(
        Some("people/9"),
        Some("Janet Dough"),
        Some("JD"),
        Some("new note"),
        &["jane@x.com"],
    );
    let r = resolve_common_divergence(
        &mut apeople,
        &a,
        &g,
        &"jane@x.com".to_string(),
        UpdateSource::FromGoogle,
    );
    assert!(r.is_none());
    assert_eq!(apeople.len(), 1);
    assert_eq!(apeople[0].nickname, "Dough");
    assert_eq!(apeople[0].display_name, "Janet Dough");
    assert_eq!(apeople[0].fcc, "keepme");
    assert_eq!(apeople[0].note, "new note");
}

#[test]
fn divergence_local_wins_plans_an_update_in_place() {
    let mut apeople = vec![local("Doe", "Jane Doe", "jane@x.com", "", "local note")];
    let a = apeople[0].clone();
    let g = remote(Some("people/9"), Some("Janet"), Some("JD"), Some("n"), &["jane@x.com"]);
    let r = resolve_common_divergence(
        &mut apeople,
        &a,
        &g,
        &"jane@x.com".to_string(),
        UpdateSource::FromAddressBook,
    );
    match r.unwrap() {
        RemoteOp::Update { resource_id, write } => {
            assert_eq!(resource_id, "people/9");
            assert_eq!(write.nickname, "Doe");
            assert_eq!(write.name, "Jane Doe");
            assert!(write.given_name.is_none());
            assert!(write.family_name.is_none());
            assert_eq!(write.note, "local note");
        },
        _ => panic!("expected an update"),
    }
    assert_eq!(apeople.len(), 1);
    assert_eq!(apeople[0].note, "local note");
}

#[test]
fn plan_for_contact_without_resource_id_is_a_creation() {
    let a = local("Doe", "Jane Doe", "jane@x.com", "", "");
    let g = remote(None, Some("Janet"), None, None, &["jane@x.com"]);
    match plan_remote_write(Some(&g), &a) {
        RemoteOp::Create { write } => {
            assert_eq!(write.name, "Jane Doe");
            assert!(write.given_name.is_none());
        },
        _ => panic!("expected a creation"),
    }
}

#[test]
fn operator_choice_parsing() {
    assert_eq!(parse_update_source("g"), Some(UpdateSource::FromGoogle));
    assert_eq!(parse_update_source(" G \n"), Some(UpdateSource::FromGoogle));
    assert_eq!(parse_update_source("a"), Some(UpdateSource::FromAddressBook));
    assert_eq!(parse_update_source("A\n"), Some(UpdateSource::FromAddressBook));
    assert_eq!(parse_update_source("x"), None);
    assert_eq!(parse_update_source(""), None);
    assert_eq!(parse_update_source("ga"), None);
}

#[test]
fn overwrite_confirmation_parsing() {
    assert!(confirms_overwrite("y"));
    assert!(confirms_overwrite(" Y \n"));
    assert!(!confirms_overwrite("n"));
    assert!(!confirms_overwrite("yes"));
    assert!(!confirms_overwrite(""));
}

#[test]
fn related_lookup_and_removal() {
    let mut apeople = vec![
        local("A", "A", "a@x.com", "", ""),
        local("B", "B", "b@x.com", "", ""),
        local("A2", "A2", "a@x.com", "", ""),
    ];
    let snapshot = apeople.clone();
    let related = get_related_apersons(&snapshot, "a@x.com");
    assert_eq!(related.len(), 2);
    assert_eq!(related[0].nickname, "A");
    assert_eq!(related[1].nickname, "A2");
    remove_related_apersons(&mut apeople, &related);
    assert_eq!(apeople.len(), 1);
    assert_eq!(apeople[0].nickname, "B");
}

#[test]
fn init_rows_give_one_record_per_email() {
    let g = remote(None, Some("Jane Doe"), None, Some("memo"), &["a@x.com", "b@x.com"]);
    let rows = addrsync::engine::init_contacts_for_person(&g).unwrap();
    assert_eq!(rows.len(), 2);
    assert_eq!(rows[0].nickname, "Doe01");
    assert_eq!(rows[1].nickname, "Doe02");
    assert_eq!(rows[0].email, "a@x.com");
    assert_eq!(rows[1].email, "b@x.com");
    assert_eq!(rows[0].display_name, "Jane Doe");
    assert_eq!(rows[0].note, "memo");
    assert_eq!(rows[0].fcc, "");
}

#[test]
fn init_rows_seed_the_pool_with_the_remote_nickname() {
    let g = remote(None, Some("Jane Doe"), Some("JD"), None, &["a@x.com"]);
    let rows = addrsync::engine::init_contacts_for_person(&g).unwrap();
    assert_eq!(rows.len(), 1);
    // A single email takes the bare base, here re-derived from the pool entry.
    assert_eq!(rows[0].nickname, "JD");
}

#[test]
fn contact_without_name_or_organization_contributes_nothing() {
    let g = remote(None, None, Some("JD"), Some("m"), &["a@x.com"]);
    assert!(addrsync::engine::init_contacts_for_person(&g).unwrap().is_empty());
}

#[test]
fn field_masks_name_exactly_the_synced_fields() {
    assert_eq!(write_field_mask(), "nicknames,names,emailAddresses,biographies");
    assert_eq!(
        fetch_field_mask(),
        "nicknames,names,organizations,emailAddresses,biographies"
    );
}
