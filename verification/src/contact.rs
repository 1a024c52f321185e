//! The two contact representations the sync reconciles: a record of the
//! local tab-delimited file, and the projection of a remote contact onto
//! the fields the sync reads.

use vstd::prelude::*;

verus! {

/// One record of the local address book file.
///
/// The email is the identity key for matching against the remote side.
/// `fcc` is an unused pass-through field, preserved verbatim.
#[derive(Clone, Debug)]
pub struct LocalContact {
    pub nickname: String,
    pub display_name: String,
    pub email: String,
    pub fcc: String,
    pub note: String,
}

#[verifier::ext_equal]
pub ghost struct LocalContactView {
    pub nickname: Seq<char>,
    pub display_name: Seq<char>,
    pub email: Seq<char>,
    pub fcc: Seq<char>,
    pub note: Seq<char>,
}

impl View for LocalContact {
    type V = LocalContactView;

    open spec fn view(&self) -> LocalContactView {
        LocalContactView {
            nickname: self.nickname@,
            display_name: self.display_name@,
            email: self.email@,
            fcc: self.fcc@,
            note: self.note@,
        }
    }
}

impl DeepView for LocalContact {
    type V = LocalContactView;

    open spec fn deep_view(&self) -> LocalContactView {
        self.view()
    }
}

impl PartialEq for LocalContact {
    fn eq(&self, other: &LocalContact) -> (r: bool) {
        self.nickname == other.nickname && self.display_name == other.display_name && self.email
            == other.email && self.fcc == other.fcc && self.note == other.note
    }
}

impl vstd::std_specs::cmp::PartialEqSpecImpl for LocalContact {
    open spec fn obeys_eq_spec() -> bool {
        true
    }

    open spec fn eq_spec(&self, other: &LocalContact) -> bool {
        self@ == other@
    }
}

impl LocalContact {
    /// A field-for-field copy whose view equals this record's view.
    pub fn copied(&self) -> (r: LocalContact)
        ensures
            r@ == self@,
    {
        LocalContact {
            nickname: self.nickname.clone(),
            display_name: self.display_name.clone(),
            email: self.email.clone(),
            fcc: self.fcc.clone(),
            note: self.note.clone(),
        }
    }
}

/// What the sync reads of a remote contact. Every optional sub-field is
/// kept as "present list or absent", and each list entry keeps its own
/// "value set or unset" state, so that the normalizer's fallbacks are
/// total pattern matches.
///
/// `resource_id` is the opaque identifier a remote mutation needs;
/// a contact without one has not been created remotely yet.
#[derive(Clone, Debug)]
pub struct RemoteContact {
    pub resource_id: Option<String>,
    /// The display-name entry of each name record.
    pub names: Option<Vec<Option<String>>>,
    /// The name of each organization record.
    pub organizations: Option<Vec<Option<String>>>,
    /// The value of each nickname record.
    pub nicknames: Option<Vec<Option<String>>>,
    /// The value of each biography record.
    pub biographies: Option<Vec<Option<String>>>,
    /// The value of each email-address record.
    pub email_addresses: Option<Vec<Option<String>>>,
}

#[verifier::ext_equal]
pub ghost struct RemoteContactView {
    pub resource_id: Option<Seq<char>>,
    pub names: Option<Seq<Option<Seq<char>>>>,
    pub organizations: Option<Seq<Option<Seq<char>>>>,
    pub nicknames: Option<Seq<Option<Seq<char>>>>,
    pub biographies: Option<Seq<Option<Seq<char>>>>,
    pub email_addresses: Option<Seq<Option<Seq<char>>>>,
}

impl View for RemoteContact {
    type V = RemoteContactView;

    open spec fn view(&self) -> RemoteContactView {
        RemoteContactView {
            resource_id: self.resource_id.deep_view(),
            names: self.names.deep_view(),
            organizations: self.organizations.deep_view(),
            nicknames: self.nicknames.deep_view(),
            biographies: self.biographies.deep_view(),
            email_addresses: self.email_addresses.deep_view(),
        }
    }
}

impl DeepView for RemoteContact {
    type V = RemoteContactView;

    open spec fn deep_view(&self) -> RemoteContactView {
        self.view()
    }
}

fn copy_opt_string(v: &Option<String>) -> (r: Option<String>)
    ensures
        r.deep_view() == v.deep_view(),
{
    match v {
        Some(s) => Some(s.clone()),
        None => None,
    }
}

fn copy_entries(v: &Option<Vec<Option<String>>>) -> (r: Option<Vec<Option<String>>>)
    ensures
        r.deep_view() == v.deep_view(),
{
    match v {
        Some(entries) => {
            let mut out: Vec<Option<String>> = Vec::new();
            let mut i: usize = 0;
            while i < entries.len()
                invariant
                    i <= entries@.len(),
                    out@.len() == i as int,
                    forall|j: int| 0 <= j < i ==> out@[j].deep_view() == entries@[j].deep_view(),
                decreases entries@.len() - i,
            {
                out.push(copy_opt_string(&entries[i]));
                i = i + 1;
            }
            proof {
                assert(out.deep_view() =~= entries.deep_view());
            }
            Some(out)
        },
        None => None,
    }
}

impl RemoteContact {
    /// A field-for-field copy whose view equals this contact's view.
    pub fn copied(&self) -> (r: RemoteContact)
        ensures
            r@ == self@,
    {
        let r = RemoteContact {
            resource_id: copy_opt_string(&self.resource_id),
            names: copy_entries(&self.names),
            organizations: copy_entries(&self.organizations),
            nicknames: copy_entries(&self.nicknames),
            biographies: copy_entries(&self.biographies),
            email_addresses: copy_entries(&self.email_addresses),
        };
        proof {
            assert(r@ =~= self@);
        }
        r
    }
}

} // verus!
