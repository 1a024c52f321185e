use addrsync::contact::{LocalContact, RemoteContact};
use addrsync::normalize::{
    get_gcontact_biography, get_gcontact_name, get_gcontact_nickname, get_gpersons_from_aperson,
    get_related_gpersons, has_name_or_organization,
};

fn bare() -> RemoteContact {
    RemoteContact {
        resource_id: None,
        names: None,
        organizations: None,
        nicknames: None,
        biographies: None,
        email_addresses: None,
    }
}

#[test]
fn name_comes_from_the_first_name_record() {
    let mut g = bare();
    g.names = Some(vec![Some("Jane Doe".to_string()), Some("Other".to_string())]);
    g.organizations = Some(vec![Some("Acme".to_string())]);
    assert_eq!(get_gcontact_name(&g), "Jane Doe");
}

#[test]
fn name_falls_back_to_the_first_organization() {
    let mut g = bare();
    g.organizations = Some(vec![Some("Acme".to_string())]);
    assert_eq!(get_gcontact_name(&g), "Acme");
    let mut g2 = bare();
    g2.names = Some(vec![]);
    g2.organizations = Some(vec![Some("Acme".to_string())]);
    assert_eq!(get_gcontact_name(&g2), "Acme");
}

#[test]
fn unset_sub_fields_become_empty_strings() {
    let g = bare();
    assert_eq!(get_gcontact_name(&g), "");
    assert_eq!(get_gcontact_nickname(&g), "");
    assert_eq!(get_gcontact_biography(&g), "");
    let mut g2 = bare();
    g2.names = Some(vec![None]);
    g2.nicknames = Some(vec![None]);
    g2.biographies = Some(vec![]);
    assert_eq!(get_gcontact_name(&g2), "");
    assert_eq!(get_gcontact_nickname(&g2), "");
    assert_eq!(get_gcontact_biography(&g2), "");
}

#[test]
fn nickname_and_biography_take_the_first_entry() {
    let mut g = bare();
    g.nicknames = Some(vec![Some("JD".to_string()), Some("J".to_string())]);
    g.biographies = Some(vec![Some("VP".to_string())]);
    assert_eq!(get_gcontact_nickname(&g), "JD");
    assert_eq!(get_gcontact_biography(&g), "VP");
}

#[test]
fn related_gpersons_match_any_email_entry() {
    let mut g1 = bare();
    g1.names = Some(vec![Some("One".to_string())]);
    g1.email_addresses = Some(vec![Some("a@x.com".to_string()), Some("b@x.com".to_string())]);
    let mut g2 = bare();
    g2.names = Some(vec![Some("Two".to_string())]);
    g2.email_addresses = Some(vec![Some("c@x.com".to_string())]);
    let gpersons = vec![g1, g2];
    let related = get_related_gpersons(&gpersons, &"b@x.com".to_string());
    assert_eq!(related.len(), 1);
    assert_eq!(get_gcontact_name(related[0]), "One");
    assert!(get_related_gpersons(&gpersons, &"z@x.com".to_string()).is_empty());
}

#[test]
fn matching_remote_contacts_need_all_four_fields() {
    let a = LocalContact {
        nickname: "JD".to_string(),
        display_name: "Jane Doe".to_string(),
        email: "jane@x.com".to_string(),
        fcc: "".to_string(),
        note: "VP".to_string(),
    };
    let mut g = bare();
    g.names = Some(vec![Some("Jane Doe".to_string())]);
    g.nicknames = Some(vec![Some("JD".to_string())]);
    g.biographies = Some(vec![Some("VP".to_string())]);
    g.email_addresses = Some(vec![Some("jane@x.com".to_string())]);
    let mut g_wrong_note = g.clone();
    g_wrong_note.biographies = Some(vec![Some("other".to_string())]);
    let gpersons = vec![g, g_wrong_note];
    let found = get_gpersons_from_aperson(&gpersons, &a).unwrap();
    assert_eq!(found.len(), 1);
    assert_eq!(get_gcontact_biography(&found[0]), "VP");
    let nobody = vec![bare()];
    assert!(get_gpersons_from_aperson(&nobody, &a).is_none());
}

#[test]
fn organization_name_also_counts_as_a_name_match() {
    let a = LocalContact {
        nickname: "JD".to_string(),
        display_name: "Acme".to_string(),
        email: "jane@x.com".to_string(),
        fcc: "".to_string(),
        note: "".to_string(),
    };
    let mut g = bare();
    g.organizations = Some(vec![Some("Acme".to_string())]);
    g.nicknames = Some(vec![Some("JD".to_string())]);
    g.biographies = Some(vec![Some("".to_string())]);
    g.email_addresses = Some(vec![Some("jane@x.com".to_string())]);
    assert!(get_gpersons_from_aperson(&vec![g], &a).is_some());
}

#[test]
fn eligibility_needs_a_name_or_an_organization() {
    assert!(!has_name_or_organization(&bare()));
    let mut g = bare();
    g.names = Some(vec![]);
    assert!(!has_name_or_organization(&g));
    g.names = Some(vec![None]);
    assert!(has_name_or_organization(&g));
    let mut g2 = bare();
    g2.organizations = Some(vec![Some("Acme".to_string())]);
    assert!(has_name_or_organization(&g2));
}
