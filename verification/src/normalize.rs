//! The contact normalizer: projects a remote contact onto the canonical
//! (name, nickname, note) tuple the reconciliation works with, handling
//! every missing optional sub-field with an explicit empty-string
//! fallback, and looks contacts up by their fields.

use vstd::prelude::*;
use vstd::string::*;
use crate::contact::{LocalContact, LocalContactView, RemoteContact, RemoteContactView};

verus! {

pub open spec fn opt_or_empty(o: Option<Seq<char>>) -> Seq<char> {
    match o {
        Some(s) => s,
        None => Seq::empty(),
    }
}

/// The first entry of an optional list of optional values, with the
/// empty string for an absent list, an empty list, or an unset value.
pub open spec fn first_entry(l: Option<Seq<Option<Seq<char>>>>) -> Seq<char> {
    match l {
        Some(v) => if v.len() > 0 {
            opt_or_empty(v[0])
        } else {
            Seq::empty()
        },
        None => Seq::empty(),
    }
}

/// Whether an optional list of optional values holds `x` as a set value.
pub open spec fn opt_list_has(l: Option<Seq<Option<Seq<char>>>>, x: Seq<char>) -> bool {
    match l {
        Some(v) => exists|i: int| 0 <= i < v.len() && v[i] == Some(x),
        None => false,
    }
}

/// The display name the sync uses for a remote contact: the first name
/// record's display name when the name list is non-empty, else the
/// first organization's name, else the empty string.
pub open spec fn gcontact_name(p: RemoteContactView) -> Seq<char> {
    match p.names {
        Some(v) => if v.len() > 0 {
            opt_or_empty(v[0])
        } else {
            first_entry(p.organizations)
        },
        None => first_entry(p.organizations),
    }
}

/// The nickname the sync uses for a remote contact.
pub open spec fn gcontact_nickname(p: RemoteContactView) -> Seq<char> {
    first_entry(p.nicknames)
}

/// The note the sync uses for a remote contact: its first biography.
pub open spec fn gcontact_biography(p: RemoteContactView) -> Seq<char> {
    first_entry(p.biographies)
}

/// Whether a remote contact carries `e` among its email addresses.
pub open spec fn ghas_email(p: RemoteContactView, e: Seq<char>) -> bool {
    opt_list_has(p.email_addresses, e)
}

fn first_entry_exec(l: &Option<Vec<Option<String>>>) -> (r: String)
    ensures
        r@ == first_entry(l.deep_view()),
{
    match l {
        Some(v) => {
            if v.len() > 0 {
                match &v[0] {
                    Some(s) => s.clone(),
                    None => String::new(),
                }
            } else {
                String::new()
            }
        },
        None => String::new(),
    }
}

fn opt_list_contains(l: &Option<Vec<Option<String>>>, x: &String) -> (r: bool)
    ensures
        r == opt_list_has(l.deep_view(), x@),
{
    match l {
        Some(v) => {
            proof {
                assert(*l == Some(*v));
            }
            let mut i: usize = 0;
            while i < v.len()
                invariant
                    *l == Some(*v),
                    i <= v@.len(),
                    forall|j: int| 0 <= j < i ==> v@[j].deep_view() != Some(x@),
                decreases v@.len() - i,
            {
                match &v[i] {
                    Some(s) => {
                        if s.eq(x) {
                            proof {
                                assert(*l == Some(*v));
                                assert(l.deep_view() == Some(v.deep_view()));
                                assert(v.deep_view()[i as int] == Some(x@));
                                assert(opt_list_has(l.deep_view(), x@));
                            }
                            return true;
                        }
                    },
                    None => {},
                }
                i = i + 1;
            }
            proof {
                assert(forall|j: int|
                    0 <= j < v.deep_view().len() ==> v.deep_view()[j] != Some(x@));
            }
            false
        },
        None => false,
    }
}

/// The display name of a remote contact, or its first organization's
/// name as the fallback, or the empty string.
pub fn get_gcontact_name(person: &RemoteContact) -> (r: String)
    ensures
        r@ == gcontact_name(person@),
{
    match &person.names {
        Some(v) => {
            if v.len() > 0 {
                match &v[0] {
                    Some(s) => s.clone(),
                    None => String::new(),
                }
            } else {
                first_entry_exec(&person.organizations)
            }
        },
        None => first_entry_exec(&person.organizations),
    }
}

/// The first nickname of a remote contact, or the empty string.
pub fn get_gcontact_nickname(person: &RemoteContact) -> (r: String)
    ensures
        r@ == gcontact_nickname(person@),
{
    first_entry_exec(&person.nicknames)
}

/// The first biography of a remote contact, or the empty string.
pub fn get_gcontact_biography(person: &RemoteContact) -> (r: String)
    ensures
        r@ == gcontact_biography(person@),
{
    first_entry_exec(&person.biographies)
}

/// Whether a remote contact carries at least one name record or one
/// organization record; only such contacts are written out when the
/// local file is rebuilt from the remote list.
pub open spec fn has_name_or_org(p: RemoteContactView) -> bool {
    (p.names matches Some(v) && v.len() > 0) || (p.organizations matches Some(v) && v.len() > 0)
}

pub fn has_name_or_organization(person: &RemoteContact) -> (r: bool)
    ensures
        r == has_name_or_org(person@),
{
    let named = match &person.names {
        Some(v) => v.len() > 0,
        None => false,
    };
    let organized = match &person.organizations {
        Some(v) => v.len() > 0,
        None => false,
    };
    named || organized
}

/// The remote contacts carrying `e`, in their order in `gs`.
pub open spec fn related_remote(gs: Seq<RemoteContactView>, e: Seq<char>) -> Seq<RemoteContactView>
    decreases gs.len(),
{
    if gs.len() == 0 {
        Seq::empty()
    } else {
        related_remote(gs.drop_last(), e) + (if ghas_email(gs.last(), e) {
            seq![gs.last()]
        } else {
            Seq::empty()
        })
    }
}

/// The remote contacts that carry the given email address.
pub fn get_related_gpersons<'a>(gpersons: &'a Vec<RemoteContact>, email: &String) -> (r: Vec<
    &'a RemoteContact,
>)
    ensures
        r.deep_view() == related_remote(gpersons.deep_view(), email@),
{
    let mut r: Vec<&RemoteContact> = Vec::new();
    let mut i: usize = 0;
    proof {
        assert(gpersons.deep_view().take(0) =~= Seq::<RemoteContactView>::empty());
        assert(r.deep_view() =~~= related_remote(gpersons.deep_view().take(0), email@));
    }
    while i < gpersons.len()
        invariant
            i <= gpersons@.len(),
            r.deep_view() == related_remote(gpersons.deep_view().take(i as int), email@),
        decreases gpersons@.len() - i,
    {
        let ghost gs = gpersons.deep_view();
        let ghost r_deep = r.deep_view();
        proof {
            assert(gs.take(i + 1).drop_last() =~= gs.take(i as int));
            assert(gs.take(i + 1).last() == gs[i as int]);
        }
        if opt_list_contains(&gpersons[i].email_addresses, email) {
            r.push(&gpersons[i]);
            proof {
                assert(r.deep_view() =~~= r_deep.push(gs[i as int]));
                assert(r.deep_view() =~~= related_remote(gs.take(i + 1), email@));
            }
        } else {
            proof {
                assert(related_remote(gs.take(i + 1), email@) =~~= r_deep);
            }
        }
        i = i + 1;
    }
    proof {
        assert(gpersons.deep_view().take(gpersons.deep_view().len() as int)
            =~= gpersons.deep_view());
    }
    r
}

/// The positions of the remote contacts carrying `e`, in order.
pub open spec fn related_remote_indices(gs: Seq<RemoteContactView>, e: Seq<char>) -> Seq<int>
    decreases gs.len(),
{
    if gs.len() == 0 {
        Seq::empty()
    } else {
        related_remote_indices(gs.drop_last(), e) + (if ghas_email(gs.last(), e) {
            seq![gs.len() - 1]
        } else {
            Seq::empty()
        })
    }
}

/// The positions of the remote contacts that carry the given email
/// address, so a caller can pair each with whatever else it keeps at
/// the same position.
pub fn get_related_gperson_indices(gpersons: &Vec<RemoteContact>, email: &String) -> (r: Vec<
    usize,
>)
    ensures
        r@.len() == related_remote_indices(gpersons.deep_view(), email@).len(),
        forall|j: int|
            0 <= j < r@.len() ==> r@[j] as int == related_remote_indices(
                gpersons.deep_view(),
                email@,
            )[j],
{
    let mut r: Vec<usize> = Vec::new();
    let mut i: usize = 0;
    proof {
        assert(gpersons.deep_view().take(0) =~= Seq::<RemoteContactView>::empty());
    }
    while i < gpersons.len()
        invariant
            i <= gpersons@.len(),
            r@.len() == related_remote_indices(gpersons.deep_view().take(i as int), email@).len(),
            forall|j: int|
                0 <= j < r@.len() ==> r@[j] as int == related_remote_indices(
                    gpersons.deep_view().take(i as int),
                    email@,
                )[j],
        decreases gpersons@.len() - i,
    {
        let ghost gs = gpersons.deep_view();
        proof {
            assert(gs.take(i + 1).drop_last() =~= gs.take(i as int));
            assert(gs.take(i + 1).last() == gs[i as int]);
        }
        if opt_list_contains(&gpersons[i].email_addresses, email) {
            r.push(i);
        }
        i = i + 1;
    }
    proof {
        assert(gpersons.deep_view().take(gpersons.deep_view().len() as int)
            =~= gpersons.deep_view());
    }
    r
}

/// Whether a remote contact matches a local record on email, nickname,
/// display name (or organization) and note at once.
pub open spec fn gmatches_aperson(g: RemoteContactView, a: LocalContactView) -> bool {
    &&& opt_list_has(g.email_addresses, a.email)
    &&& opt_list_has(g.nicknames, a.nickname)
    &&& (opt_list_has(g.names, a.display_name) || opt_list_has(g.organizations, a.display_name))
    &&& opt_list_has(g.biographies, a.note)
}

/// The remote contacts matching `a` on all four fields, in order.
pub open spec fn matching_remote(gs: Seq<RemoteContactView>, a: LocalContactView) -> Seq<
    RemoteContactView,
>
    decreases gs.len(),
{
    if gs.len() == 0 {
        Seq::empty()
    } else {
        matching_remote(gs.drop_last(), a) + (if gmatches_aperson(gs.last(), a) {
            seq![gs.last()]
        } else {
            Seq::empty()
        })
    }
}

/// The remote contacts whose email, nickname, display name (or
/// organization) and note all match the local record, or nothing when
/// none does.
pub fn get_gpersons_from_aperson(gpersons: &Vec<RemoteContact>, aperson: &LocalContact) -> (r:
    Option<Vec<RemoteContact>>)
    ensures
        matching_remote(gpersons.deep_view(), aperson@).len() == 0 <==> r is None,
        r matches Some(v) ==> v.deep_view() == matching_remote(gpersons.deep_view(), aperson@),
{
    let mut found: Vec<RemoteContact> = Vec::new();
    let mut i: usize = 0;
    proof {
        assert(gpersons.deep_view().take(0) =~= Seq::<RemoteContactView>::empty());
        assert(found.deep_view() =~~= matching_remote(gpersons.deep_view().take(0), aperson@));
    }
    while i < gpersons.len()
        invariant
            i <= gpersons@.len(),
            found.deep_view() == matching_remote(gpersons.deep_view().take(i as int), aperson@),
        decreases gpersons@.len() - i,
    {
        let ghost gs = gpersons.deep_view();
        let ghost found_deep = found.deep_view();
        proof {
            assert(gs.take(i + 1).drop_last() =~= gs.take(i as int));
            assert(gs.take(i + 1).last() == gs[i as int]);
        }
        let g = &gpersons[i];
        let email_match = opt_list_contains(&g.email_addresses, &aperson.email);
        let nickname_match = opt_list_contains(&g.nicknames, &aperson.nickname);
        let name_match = opt_list_contains(&g.names, &aperson.display_name)
            || opt_list_contains(&g.organizations, &aperson.display_name);
        let biography_match = opt_list_contains(&g.biographies, &aperson.note);
        if email_match && nickname_match && name_match && biography_match {
            found.push(g.copied());
            proof {
                assert(found.deep_view() =~~= found_deep.push(gs[i as int]));
                assert(found.deep_view() =~~= matching_remote(gs.take(i + 1), aperson@));
            }
        } else {
            proof {
                assert(matching_remote(gs.take(i + 1), aperson@) =~~= found_deep);
            }
        }
        i = i + 1;
    }
    proof {
        assert(gpersons.deep_view().take(gpersons.deep_view().len() as int)
            =~= gpersons.deep_view());
    }
    if found.len() == 0 {
        None
    } else {
        Some(found)
    }
}

} // verus!
