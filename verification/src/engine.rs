//! The reconciliation engine: classifies every email address into
//! remote-only, local-only or common, decides whether a common pair has
//! diverged, and turns each operator choice into a concrete action — a
//! mutation of the local contact list, a remote operation to perform,
//! or nothing.

use vstd::prelude::*;
use vstd::string::*;
use crate::contact::{LocalContact, LocalContactView, RemoteContact, RemoteContactView};
use crate::nickname::{
    gen_counter, gen_nickname, generate_nickname, last_name_part, last_token_or_unknown,
    run_start, split_string_and_number, string_part,
};
use crate::normalize::{
    gcontact_biography, gcontact_name, gcontact_nickname, get_gcontact_biography,
    get_gcontact_name, get_gcontact_nickname, ghas_email,
};
use crate::text::{
    is_space, spec_is_space, str_chars, strip_end_len, strip_trailing_spaces, trailing_run,
    trim_chars, trim_spec, trim_start_spec, vec_contains_string,
};

verus! {

/// Which side an operator chose as the source of truth for one
/// resolution.
#[derive(Clone, Copy, PartialEq, Eq, Structural, Debug)]
pub enum UpdateSource {
    FromGoogle,
    FromAddressBook,
}

/// Why a decision could not produce a remote operation.
#[derive(Clone, Copy, PartialEq, Eq, Structural, Debug)]
pub enum SyncError {
    /// A remote deletion was requested for a contact that carries no
    /// resource identifier.
    MissingResourceId,
}

/// The contact fields a remote write is allowed to touch. A `None`
/// given or family name means the write must preserve whatever the
/// existing remote record holds there.
#[derive(Clone, Debug)]
pub struct RemoteWrite {
    pub nickname: String,
    pub name: String,
    pub given_name: Option<String>,
    pub family_name: Option<String>,
    pub email: String,
    pub note: String,
}

#[verifier::ext_equal]
pub ghost struct RemoteWriteView {
    pub nickname: Seq<char>,
    pub name: Seq<char>,
    pub given_name: Option<Seq<char>>,
    pub family_name: Option<Seq<char>>,
    pub email: Seq<char>,
    pub note: Seq<char>,
}

impl View for RemoteWrite {
    type V = RemoteWriteView;

    open spec fn view(&self) -> RemoteWriteView {
        RemoteWriteView {
            nickname: self.nickname@,
            name: self.name@,
            given_name: self.given_name.deep_view(),
            family_name: self.family_name.deep_view(),
            email: self.email@,
            note: self.note@,
        }
    }
}

/// One remote mutation for the driver to perform.
#[derive(Clone, Debug)]
pub enum RemoteOp {
    Delete { resource_id: String },
    Create { write: RemoteWrite },
    Update { resource_id: String, write: RemoteWrite },
}

/// The distinct non-empty emails of the local records.
pub open spec fn local_email_set(cs: Seq<LocalContactView>) -> Set<Seq<char>> {
    Set::new(|e: Seq<char>| e.len() > 0 && exists|i: int| 0 <= i < cs.len() && cs[i].email == e)
}

/// The distinct non-empty emails the remote contacts carry.
pub open spec fn remote_email_set(gs: Seq<RemoteContactView>) -> Set<Seq<char>> {
    Set::new(
        |e: Seq<char>| e.len() > 0 && exists|i: int| 0 <= i < gs.len() && ghas_email(gs[i], e),
    )
}

/// The three email groups one reconciliation run works through.
pub struct EmailClassification {
    pub remote_only: Vec<String>,
    pub local_only: Vec<String>,
    pub common: Vec<String>,
}

pub open spec fn distinct_strings(v: Seq<Seq<char>>) -> bool {
    forall|i: int, j: int| 0 <= i < j < v.len() ==> v[i] != v[j]
}

fn distinct_local_emails(apeople: &Vec<LocalContact>) -> (r: Vec<String>)
    ensures
        forall|e: Seq<char>|
            #[trigger] r.deep_view().contains(e) <==> local_email_set(
                apeople.deep_view(),
            ).contains(e),
        distinct_strings(r.deep_view()),
{
    let ghost cs = apeople.deep_view();
    let mut r: Vec<String> = Vec::new();
    let mut k: usize = 0;
    while k < apeople.len()
        invariant
            k <= apeople@.len(),
            cs == apeople.deep_view(),
            forall|e: Seq<char>|
                #[trigger] r.deep_view().contains(e) <==> (e.len() > 0 && exists|i: int|
                    0 <= i < k && cs[i].email == e),
            distinct_strings(r.deep_view()),
        decreases apeople@.len() - k,
    {
        let ghost r0 = r.deep_view();
        let c = &apeople[k];
        proof {
            assert(c@ == cs[k as int]);
        }
        if !c.email.as_str().is_empty() && !vec_contains_string(&r, &c.email) {
            r.push(c.email.clone());
            proof {
                assert(r.deep_view() =~~= r0.push(cs[k as int].email));
                assert forall|e: Seq<char>| #[trigger]
                    r.deep_view().contains(e) implies (e.len() > 0 && exists|i: int|
                    0 <= i < k + 1 && cs[i].email == e) by {
                    let w = choose|w: int| 0 <= w < r.deep_view().len() && r.deep_view()[w] == e;
                    if w < r0.len() {
                        assert(r0.contains(e));
                    } else {
                        assert(cs[k as int].email == e);
                    }
                }
                assert forall|e: Seq<char>|
                    (e.len() > 0 && exists|i: int| 0 <= i < k + 1 && cs[i].email == e) implies #[trigger]
                    r.deep_view().contains(e) by {
                    let w = choose|i: int| 0 <= i < k + 1 && cs[i].email == e;
                    if w < k {
                        assert(r0.contains(e));
                        let u = choose|u: int| 0 <= u < r0.len() && r0[u] == e;
                        assert(r.deep_view()[u] == e);
                    } else {
                        assert(r.deep_view()[r0.len() as int] == e);
                    }
                }
            }
        } else {
            proof {
                assert forall|e: Seq<char>|
                    (e.len() > 0 && exists|i: int| 0 <= i < k + 1 && cs[i].email == e) implies #[trigger]
                    r.deep_view().contains(e) by {
                    let w = choose|i: int| 0 <= i < k + 1 && cs[i].email == e;
                    if w == k {
                        assert(cs[k as int].email == e);
                        assert(e.len() > 0);
                        assert(r.deep_view().contains(e));
                    }
                }
            }
        }
        k = k + 1;
    }
    r
}

fn distinct_remote_emails(gpersons: &Vec<RemoteContact>) -> (r: Vec<String>)
    ensures
        forall|e: Seq<char>|
            #[trigger] r.deep_view().contains(e) <==> remote_email_set(
                gpersons.deep_view(),
            ).contains(e),
        distinct_strings(r.deep_view()),
{
    let ghost gs = gpersons.deep_view();
    let mut r: Vec<String> = Vec::new();
    let mut k: usize = 0;
    while k < gpersons.len()
        invariant
            k <= gpersons@.len(),
            gs == gpersons.deep_view(),
            forall|e: Seq<char>|
                #[trigger] r.deep_view().contains(e) <==> (e.len() > 0 && exists|i: int|
                    0 <= i < k && ghas_email(gs[i], e)),
            distinct_strings(r.deep_view()),
        decreases gpersons@.len() - k,
    {
        let g = &gpersons[k];
        proof {
            assert(g@ == gs[k as int]);
        }
        match &g.email_addresses {
            Some(list) => {
                proof {
                    assert(g.email_addresses == Some(*list));
                }
                let mut m: usize = 0;
                while m < list.len()
                    invariant
                        m <= list@.len(),
                        gs == gpersons.deep_view(),
                        k < gs.len(),
                        gs[k as int] == gpersons.deep_view()[k as int],
                        g.email_addresses == Some(*list),
                        g@ == gs[k as int],
                        forall|e: Seq<char>|
                            #[trigger] r.deep_view().contains(e) <==> (e.len() > 0 && (exists|
                                i: int,
                            |
                                0 <= i < k && ghas_email(gs[i], e)) || (e.len() > 0 && exists|
                                j: int,
                            | 0 <= j < m && list.deep_view()[j] == Some(e))),
                        distinct_strings(r.deep_view()),
                    decreases list@.len() - m,
                {
                    let ghost r0 = r.deep_view();
                    match &list[m] {
                        Some(s) => {
                            if !s.as_str().is_empty() && !vec_contains_string(&r, s) {
                                r.push(s.clone());
                                proof {
                                    assert(list.deep_view()[m as int] == Some(s@));
                                    assert(r.deep_view() =~~= r0.push(s@));
                                    assert forall|e: Seq<char>| #[trigger]
                                        r.deep_view().contains(e) implies (e.len() > 0 && (exists|
                                        i: int,
                                    |
                                        0 <= i < k && ghas_email(gs[i], e)) || (e.len() > 0
                                        && exists|j: int|
                                        0 <= j < m + 1 && list.deep_view()[j] == Some(e))) by {
                                        let w = choose|w: int|
                                            0 <= w < r.deep_view().len() && r.deep_view()[w] == e;
                                        if w < r0.len() {
                                            assert(r0.contains(e));
                                        } else {
                                            assert(list.deep_view()[m as int] == Some(e));
                                        }
                                    }
                                    assert forall|e: Seq<char>|
                                        (e.len() > 0 && (exists|i: int|
                                            0 <= i < k && ghas_email(gs[i], e)) || (e.len() > 0
                                            && exists|j: int|
                                            0 <= j < m + 1 && list.deep_view()[j] == Some(
                                                e,
                                            ))) implies #[trigger] r.deep_view().contains(e) by {
                                        if r0.contains(e) {
                                            let u = choose|u: int|
                                                0 <= u < r0.len() && r0[u] == e;
                                            assert(r.deep_view()[u] == e);
                                        } else {
                                            assert(list.deep_view()[m as int] == Some(e));
                                            assert(r.deep_view()[r0.len() as int] == e);
                                        }
                                    }
                                }
                            } else {
                                proof {
                                    assert(list.deep_view()[m as int] == Some(s@));
                                    assert forall|e: Seq<char>|
                                        (e.len() > 0 && (exists|i: int|
                                            0 <= i < k && ghas_email(gs[i], e)) || (e.len() > 0
                                            && exists|j: int|
                                            0 <= j < m + 1 && list.deep_view()[j] == Some(
                                                e,
                                            ))) implies #[trigger] r.deep_view().contains(e) by {
                                        if !r0.contains(e) {
                                            assert(list.deep_view()[m as int] == Some(e));
                                            assert(e == s@);
                                            assert(e.len() > 0);
                                            assert(r.deep_view().contains(e));
                                        }
                                    }
                                }
                            }
                        },
                        None => {
                            proof {
                                assert(list.deep_view()[m as int] is None);
                            }
                        },
                    }
                    m = m + 1;
                }
                proof {
                    assert(g@.email_addresses == Some(list.deep_view()));
                    assert forall|e: Seq<char>|
                        ((exists|j: int| 0 <= j < list.deep_view().len() && list.deep_view()[j]
                            == Some(e)) <==> ghas_email(gs[k as int], e)) by {}
                }
            },
            None => {
                proof {
                    assert(g@.email_addresses is None);
                    assert(forall|e: Seq<char>| !ghas_email(gs[k as int], e));
                }
            },
        }
        k = k + 1;
    }
    r
}

fn filter_by_membership(src: &Vec<String>, other: &Vec<String>, keep_members: bool) -> (r: Vec<
    String,
>)
    requires
        distinct_strings(src.deep_view()),
    ensures
        forall|e: Seq<char>|
            #[trigger] r.deep_view().contains(e) <==> (src.deep_view().contains(e)
                && other.deep_view().contains(e) == keep_members),
        distinct_strings(r.deep_view()),
{
    let mut r: Vec<String> = Vec::new();
    let mut k: usize = 0;
    while k < src.len()
        invariant
            k <= src@.len(),
            distinct_strings(src.deep_view()),
            forall|e: Seq<char>|
                #[trigger] r.deep_view().contains(e) <==> (src.deep_view().take(k as int).contains(
                    e,
                ) && other.deep_view().contains(e) == keep_members),
            distinct_strings(r.deep_view()),
        decreases src@.len() - k,
    {
        let ghost r0 = r.deep_view();
        let ghost ss = src.deep_view();
        proof {
            assert(src@[k as int]@ == ss[k as int]);
        }
        if vec_contains_string(other, &src[k]) == keep_members {
            r.push(src[k].clone());
            proof {
                assert(r.deep_view() =~~= r0.push(ss[k as int]));
                assert(forall|j: int| 0 <= j < k ==> ss[j] != ss[k as int]);
                assert forall|e: Seq<char>| #[trigger]
                    r.deep_view().contains(e) implies (ss.take(k + 1).contains(e)
                    && other.deep_view().contains(e) == keep_members) by {
                    let w = choose|w: int|
                        0 <= w < r.deep_view().len() && r.deep_view()[w] == e;
                    if w < r0.len() {
                        assert(r0.contains(e));
                        let u = choose|u: int| 0 <= u < k && ss[u] == e;
                        assert(ss.take(k + 1)[u] == e);
                    } else {
                        assert(ss.take(k + 1)[k as int] == e);
                    }
                }
                assert forall|e: Seq<char>|
                    (ss.take(k + 1).contains(e) && other.deep_view().contains(e)
                        == keep_members) implies #[trigger] r.deep_view().contains(e) by {
                    let w = choose|w: int| 0 <= w < k + 1 && (#[trigger] ss.take(k + 1)[w]) == e;
                    if w < k {
                        assert(ss.take(k as int)[w] == e);
                        assert(ss.take(k as int).contains(e));
                        assert(r0.contains(e));
                        let u = choose|u: int| 0 <= u < r0.len() && r0[u] == e;
                        assert(r.deep_view()[u] == e);
                    } else {
                        assert(r.deep_view()[r0.len() as int] == e);
                    }
                }
                assert(distinct_strings(r.deep_view())) by {
                    assert(!r0.contains(ss[k as int])) by {
                        if r0.contains(ss[k as int]) {
                            assert(ss.take(k as int).contains(ss[k as int]));
                            let u = choose|u: int|
                                0 <= u < k && ss.take(k as int)[u] == ss[k as int];
                            assert(ss[u] == ss[k as int]);
                        }
                    }
                    assert(forall|i: int|
                        0 <= i < r0.len() ==> #[trigger] r.deep_view()[i] == r0[i]);
                    assert(forall|i: int|
                        0 <= i < r0.len() ==> r0.contains(#[trigger] r0[i]));
                }
            }
        } else {
            proof {
                assert forall|e: Seq<char>|
                    (ss.take(k + 1).contains(e) && other.deep_view().contains(e)
                        == keep_members) implies #[trigger] r.deep_view().contains(e) by {
                    let w = choose|w: int| 0 <= w < k + 1 && (#[trigger] ss.take(k + 1)[w]) == e;
                    if w < k {
                        assert(ss.take(k as int)[w] == e);
                        assert(ss.take(k as int).contains(e));
                    } else {
                        assert(e == ss[k as int]);
                        assert(false);
                    }
                }
                assert forall|e: Seq<char>| #[trigger]
                    r.deep_view().contains(e) implies (ss.take(k + 1).contains(e)
                    && other.deep_view().contains(e) == keep_members) by {
                    assert(ss.take(k as int).contains(e));
                    let u = choose|u: int| 0 <= u < k && ss.take(k as int)[u] == e;
                    assert(ss.take(k + 1)[u] == e);
                }
            }
        }
        k = k + 1;
    }
    proof {
        assert(src.deep_view().take(src.deep_view().len() as int) =~= src.deep_view());
    }
    r
}

/// Builds the three disjoint email groups of one run: remote-only,
/// local-only and common, each a duplicate-free list of the non-empty
/// emails in exactly that set relation.
pub fn classify_emails(apeople: &Vec<LocalContact>, gpersons: &Vec<RemoteContact>) -> (r:
    EmailClassification)
    ensures
        forall|e: Seq<char>|
            #[trigger] r.remote_only.deep_view().contains(e) <==> (remote_email_set(
                gpersons.deep_view(),
            ).contains(e) && !local_email_set(apeople.deep_view()).contains(e)),
        forall|e: Seq<char>|
            #[trigger] r.local_only.deep_view().contains(e) <==> (local_email_set(
                apeople.deep_view(),
            ).contains(e) && !remote_email_set(gpersons.deep_view()).contains(e)),
        forall|e: Seq<char>|
            #[trigger] r.common.deep_view().contains(e) <==> (local_email_set(
                apeople.deep_view(),
            ).contains(e) && remote_email_set(gpersons.deep_view()).contains(e)),
        distinct_strings(r.remote_only.deep_view()),
        distinct_strings(r.local_only.deep_view()),
        distinct_strings(r.common.deep_view()),
{
    let local_emails = distinct_local_emails(apeople);
    let remote_emails = distinct_remote_emails(gpersons);
    let remote_only = filter_by_membership(&remote_emails, &local_emails, false);
    let local_only = filter_by_membership(&local_emails, &remote_emails, false);
    let common = filter_by_membership(&local_emails, &remote_emails, true);
    EmailClassification { remote_only, local_only, common }
}

/// The three groups partition the union of the two email sets: together
/// they cover every email on either side, and no email falls into two
/// groups.
pub proof fn lemma_email_groups_partition(l: Set<Seq<char>>, r: Set<Seq<char>>)
    ensures
        r.difference(l).union(l.difference(r)).union(l.intersect(r)) == l.union(r),
        r.difference(l).intersect(l.difference(r)) == Set::<Seq<char>>::empty(),
        r.difference(l).intersect(l.intersect(r)) == Set::<Seq<char>>::empty(),
        l.difference(r).intersect(l.intersect(r)) == Set::<Seq<char>>::empty(),
{
    assert(r.difference(l).union(l.difference(r)).union(l.intersect(r)) =~= l.union(r));
    assert(r.difference(l).intersect(l.difference(r)) =~= Set::<Seq<char>>::empty());
    assert(r.difference(l).intersect(l.intersect(r)) =~= Set::<Seq<char>>::empty());
    assert(l.difference(r).intersect(l.intersect(r)) =~= Set::<Seq<char>>::empty());
}

/// The maximal run of non-whitespace characters at the start of `s`.
pub open spec fn leading_run(s: Seq<char>) -> Seq<char>
    decreases s.len(),
{
    if s.len() == 0 || spec_is_space(s[0]) {
        Seq::empty()
    } else {
        seq![s[0]] + leading_run(s.drop_first())
    }
}

pub open spec fn has_token(s: Seq<char>) -> bool {
    exists|i: int| 0 <= i < s.len() && !spec_is_space(s[i])
}

/// The first whitespace-delimited token of a name.
pub open spec fn first_token(s: Seq<char>) -> Seq<char> {
    leading_run(trim_start_spec(s))
}

/// Whether a name holds two or more whitespace-delimited tokens.
pub open spec fn multi_token(s: Seq<char>) -> bool {
    has_token(trim_start_spec(s).skip(first_token(s).len() as int))
}

/// The given name a freshly created remote contact gets: the first
/// token when the display name holds several, else the whole name.
pub open spec fn given_name_of(s: Seq<char>) -> Seq<char> {
    if multi_token(s) {
        first_token(s)
    } else {
        s
    }
}

/// The family name a freshly created remote contact gets: the last
/// token when the display name holds several, else empty.
pub open spec fn family_name_of(s: Seq<char>) -> Seq<char> {
    if multi_token(s) {
        trailing_run(strip_trailing_spaces(s))
    } else {
        Seq::empty()
    }
}

fn run_end(v: &Vec<char>, i: usize) -> (r: usize)
    requires
        i <= v@.len(),
    ensures
        i <= r <= v@.len(),
        leading_run(v@.skip(i as int)) == v@.subrange(i as int, r as int),
    decreases v@.len() - i,
{
    if i == v.len() {
        proof {
            assert(v@.skip(i as int) =~= Seq::<char>::empty());
            assert(v@.subrange(i as int, i as int) =~= Seq::<char>::empty());
        }
        i
    } else if is_space(v[i]) {
        proof {
            assert(v@.skip(i as int)[0] == v@[i as int]);
            assert(v@.subrange(i as int, i as int) =~= Seq::<char>::empty());
        }
        i
    } else {
        proof {
            assert(v@.skip(i as int)[0] == v@[i as int]);
            assert(v@.skip(i as int).drop_first() =~= v@.skip(i + 1));
        }
        let r = run_end(v, i + 1);
        proof {
            assert(v@.subrange(i as int, r as int) =~= seq![v@[i as int]] + v@.subrange(
                i + 1,
                r as int,
            ));
        }
        r
    }
}

/// Splits a display name into the given and family name a freshly
/// created remote contact is given: with two or more tokens, the first
/// and the last; with fewer, the whole name and an empty family name.
pub fn name_parts(name: &str) -> (r: (String, String))
    ensures
        r.0@ == given_name_of(name@),
        r.1@ == family_name_of(name@),
{
    let v = str_chars(name);
    let mut a: usize = 0;
    while a < v.len() && is_space(v[a])
        invariant
            0 <= a <= v@.len(),
            forall|j: int| 0 <= j < a ==> spec_is_space(v@[j]),
        decreases v@.len() - a,
    {
        a = a + 1;
    }
    proof {
        crate::text::lemma_trim_start_is_skip(v@, a as int);
    }
    let b = run_end(&v, a);
    proof {
        assert(first_token(v@) == v@.subrange(a as int, b as int));
        assert(trim_start_spec(v@).skip(first_token(v@).len() as int) =~= v@.skip(b as int));
    }
    let mut j: usize = b;
    let mut more = false;
    while j < v.len() && !more
        invariant
            b <= j <= v@.len(),
            more ==> j < v@.len() && !spec_is_space(v@[j as int]),
            !more ==> forall|t: int| b <= t < j ==> spec_is_space(v@[t]),
        decreases v@.len() - j + (if more { 0int } else { 1int }),
    {
        if !is_space(v[j]) {
            more = true;
        } else {
            j = j + 1;
        }
    }
    proof {
        if more {
            assert(v@.skip(b as int)[j - b] == v@[j as int]);
            assert(has_token(v@.skip(b as int)));
        } else {
            assert forall|i: int|
                0 <= i < v@.skip(b as int).len() implies spec_is_space(
                v@.skip(b as int)[i],
            ) by {
                assert(v@.skip(b as int)[i] == v@[b + i]);
            }
            assert(!has_token(v@.skip(b as int)));
        }
        assert(more == multi_token(v@));
    }
    if more {
        let given = crate::nickname::chars_range_string(&v, a, b);
        let e = strip_end_len(&v, v.len());
        proof {
            assert(v@.take(v@.len() as int) =~= v@);
        }
        let b2 = run_start(&v, e);
        let family = crate::nickname::chars_range_string(&v, b2, e);
        (given, family)
    } else {
        (name.to_owned(), String::new())
    }
}

/// The nickname a contact adopted from the remote side gets: a fresh
/// single-email generation against an empty pool, which is the display
/// name's last token.
pub open spec fn adopted_nickname(gname: Seq<char>) -> Seq<char> {
    last_token_or_unknown(gname)
}

/// The local record built when a remote-only contact is adopted into
/// the local file.
pub open spec fn adopted_contact(g: RemoteContactView, email: Seq<char>) -> LocalContactView {
    LocalContactView {
        nickname: adopted_nickname(gcontact_name(g)),
        display_name: gcontact_name(g),
        email: email,
        fcc: Seq::empty(),
        note: gcontact_biography(g),
    }
}

/// The local record that replaces an existing one when the remote side
/// wins a divergence: remote name, nickname and note, with the old
/// record's pass-through field kept.
pub open spec fn replacement_contact(
    a: LocalContactView,
    g: RemoteContactView,
    email: Seq<char>,
) -> LocalContactView {
    LocalContactView {
        nickname: adopted_nickname(gcontact_name(g)),
        display_name: gcontact_name(g),
        email: email,
        fcc: a.fcc,
        note: gcontact_biography(g),
    }
}

/// The write payload for updating an existing remote contact: the four
/// masked fields from the local record, everything else preserved.
pub open spec fn update_write_of(a: LocalContactView) -> RemoteWriteView {
    RemoteWriteView {
        nickname: a.nickname,
        name: a.display_name,
        given_name: None,
        family_name: None,
        email: a.email,
        note: a.note,
    }
}

/// The write payload for creating a remote contact from scratch: the
/// four masked fields plus the name split into given and family parts.
pub open spec fn create_write_of(a: LocalContactView) -> RemoteWriteView {
    RemoteWriteView {
        nickname: a.nickname,
        name: a.display_name,
        given_name: Some(given_name_of(a.display_name)),
        family_name: Some(family_name_of(a.display_name)),
        email: a.email,
        note: a.note,
    }
}

fn update_write(aperson: &LocalContact) -> (r: RemoteWrite)
    ensures
        r@ == update_write_of(aperson@),
{
    let r = RemoteWrite {
        nickname: aperson.nickname.clone(),
        name: aperson.display_name.clone(),
        given_name: None,
        family_name: None,
        email: aperson.email.clone(),
        note: aperson.note.clone(),
    };
    proof {
        assert(r@ =~~= update_write_of(aperson@));
    }
    r
}

fn create_write(aperson: &LocalContact) -> (r: RemoteWrite)
    ensures
        r@ == create_write_of(aperson@),
{
    let (given, family) = name_parts(aperson.display_name.as_str());
    let r = RemoteWrite {
        nickname: aperson.nickname.clone(),
        name: aperson.display_name.clone(),
        given_name: Some(given),
        family_name: Some(family),
        email: aperson.email.clone(),
        note: aperson.note.clone(),
    };
    proof {
        assert(r@ =~~= create_write_of(aperson@));
    }
    r
}

/// The remote operation that writes the local record to the remote
/// side: an update in place when the targeted contact already carries a
/// resource identifier, else a creation.
pub fn plan_remote_write(existing: Option<&RemoteContact>, aperson: &LocalContact) -> (r: RemoteOp)
    ensures
        match existing {
            Some(g) => match g@.resource_id {
                Some(rid) => r matches RemoteOp::Update { resource_id, write } && resource_id@
                    == rid && write@ == update_write_of(aperson@),
                None => r matches RemoteOp::Create { write } && write@ == update_write_of(
                    aperson@,
                ),
            },
            None => r matches RemoteOp::Create { write } && write@ == create_write_of(aperson@),
        },
{
    match existing {
        Some(g) => {
            match &g.resource_id {
                Some(rid) => RemoteOp::Update {
                    resource_id: rid.clone(),
                    write: update_write(aperson),
                },
                None => RemoteOp::Create { write: update_write(aperson) },
            }
        },
        None => RemoteOp::Create { write: create_write(aperson) },
    }
}

/// The adjusted form of a local nickname used for the divergence check:
/// the numeric suffix is stripped, and a nickname that is just the
/// display name's last token (an auto-derived one) is replaced by the
/// remote nickname for comparison purposes.
pub open spec fn adjusted_nickname_spec(a: LocalContactView, gnickname: Seq<char>) -> Seq<char> {
    if string_part(a.nickname) == last_token_or_unknown(a.display_name) {
        gnickname
    } else {
        string_part(a.nickname)
    }
}

pub fn adjusted_nickname(aperson: &LocalContact, gnickname: &String) -> (r: String)
    ensures
        r@ == adjusted_nickname_spec(aperson@, gnickname@),
{
    let (stripped, _n) = split_string_and_number(aperson.nickname.as_str());
    let last_part = last_name_part(aperson.display_name.as_str());
    if stripped.eq(&last_part) {
        gnickname.clone()
    } else {
        stripped
    }
}

/// Whether a local record and a remote contact sharing an email are
/// identical for sync purposes: same display name, matching adjusted
/// nickname, same note.
pub open spec fn pair_identical(a: LocalContactView, g: RemoteContactView) -> bool {
    &&& a.display_name == gcontact_name(g)
    &&& adjusted_nickname_spec(a, gcontact_nickname(g)) == gcontact_nickname(g)
    &&& a.note == gcontact_biography(g)
}

/// The common-email short-circuit: a pair that is identical needs no
/// prompt and no mutation; only a divergent pair goes to resolution.
pub fn pair_is_identical(aperson: &LocalContact, gperson: &RemoteContact) -> (r: bool)
    ensures
        r == pair_identical(aperson@, gperson@),
{
    let gname = get_gcontact_name(gperson);
    let gnickname = get_gcontact_nickname(gperson);
    let gbiography = get_gcontact_biography(gperson);
    let anickname = adjusted_nickname(aperson, &gnickname);
    aperson.display_name.eq(&gname) && anickname.eq(&gnickname) && aperson.note.eq(&gbiography)
}

/// A pair that agrees on display name, adjusted nickname and note is
/// identical, so the engine reports no divergence for it: zero prompts
/// and zero mutations follow from the driver acting only on divergent
/// pairs.
pub proof fn lemma_identical_pair_short_circuits(a: LocalContactView, g: RemoteContactView)
    requires
        a.display_name == gcontact_name(g),
        adjusted_nickname_spec(a, gcontact_nickname(g)) == gcontact_nickname(g),
        a.note == gcontact_biography(g),
    ensures
        pair_identical(a, g),
{
}

/// The local records whose email is exactly `e`, in order.
pub open spec fn related_local(cs: Seq<LocalContactView>, e: Seq<char>) -> Seq<LocalContactView>
    decreases cs.len(),
{
    if cs.len() == 0 {
        Seq::empty()
    } else {
        related_local(cs.drop_last(), e) + (if cs.last().email == e {
            seq![cs.last()]
        } else {
            Seq::empty()
        })
    }
}

/// The local records carrying the given email address.
pub fn get_related_apersons<'a>(people: &'a Vec<LocalContact>, email_to_find: &str) -> (r: Vec<
    &'a LocalContact,
>)
    ensures
        r.deep_view() == related_local(people.deep_view(), email_to_find@),
{
    let target: String = email_to_find.to_owned();
    let mut r: Vec<&LocalContact> = Vec::new();
    let mut i: usize = 0;
    proof {
        assert(people.deep_view().take(0) =~= Seq::<LocalContactView>::empty());
        assert(r.deep_view() =~~= related_local(people.deep_view().take(0), email_to_find@));
    }
    while i < people.len()
        invariant
            i <= people@.len(),
            target@ == email_to_find@,
            r.deep_view() == related_local(people.deep_view().take(i as int), email_to_find@),
        decreases people@.len() - i,
    {
        let ghost cs = people.deep_view();
        let ghost r_deep = r.deep_view();
        proof {
            assert(cs.take(i + 1).drop_last() =~= cs.take(i as int));
            assert(cs.take(i + 1).last() == cs[i as int]);
        }
        if people[i].email.eq(&target) {
            r.push(&people[i]);
            proof {
                assert(r.deep_view() =~~= r_deep.push(cs[i as int]));
                assert(r.deep_view() =~~= related_local(cs.take(i + 1), email_to_find@));
            }
        } else {
            proof {
                assert(related_local(cs.take(i + 1), email_to_find@) =~~= r_deep);
            }
        }
        i = i + 1;
    }
    proof {
        assert(people.deep_view().take(people.deep_view().len() as int) =~= people.deep_view());
    }
    r
}

/// `cs` with every record whose view appears in `rem` removed.
pub open spec fn without_contacts(
    cs: Seq<LocalContactView>,
    rem: Seq<LocalContactView>,
) -> Seq<LocalContactView>
    decreases cs.len(),
{
    if cs.len() == 0 {
        Seq::empty()
    } else {
        without_contacts(cs.drop_last(), rem) + (if rem.contains(cs.last()) {
            Seq::empty()
        } else {
            seq![cs.last()]
        })
    }
}

fn contact_in_related(related: &Vec<&LocalContact>, c: &LocalContact) -> (r: bool)
    ensures
        r == related.deep_view().contains(c@),
{
    let mut j: usize = 0;
    while j < related.len()
        invariant
            j <= related@.len(),
            forall|t: int| 0 <= t < j ==> related.deep_view()[t] != c@,
        decreases related@.len() - j,
    {
        if related[j].eq(c) {
            proof {
                assert(related.deep_view()[j as int] == c@);
            }
            return true;
        }
        j = j + 1;
    }
    false
}

/// Removes from the local records every one equal to a record in
/// `related_apeople`, keeping the order of the rest.
pub fn remove_related_apersons(apeople: &mut Vec<LocalContact>, related_apeople: &Vec<
    &LocalContact,
>)
    ensures
        final(apeople).deep_view() == without_contacts(
            old(apeople).deep_view(),
            related_apeople.deep_view(),
        ),
{
    let ghost cs = old(apeople).deep_view();
    let ghost rem = related_apeople.deep_view();
    let mut kept: Vec<LocalContact> = Vec::new();
    let mut i: usize = 0;
    proof {
        assert(cs.take(0) =~= Seq::<LocalContactView>::empty());
        assert(kept.deep_view() =~~= without_contacts(cs.take(0), rem));
    }
    while i < apeople.len()
        invariant
            i <= apeople@.len(),
            cs == apeople.deep_view(),
            rem == related_apeople.deep_view(),
            kept.deep_view() == without_contacts(cs.take(i as int), rem),
        decreases apeople@.len() - i,
    {
        let ghost kept_deep = kept.deep_view();
        proof {
            assert(cs.take(i + 1).drop_last() =~= cs.take(i as int));
            assert(cs.take(i + 1).last() == cs[i as int]);
        }
        if !contact_in_related(related_apeople, &apeople[i]) {
            kept.push(apeople[i].copied());
            proof {
                assert(kept.deep_view() =~~= kept_deep.push(cs[i as int]));
                assert(kept.deep_view() =~~= without_contacts(cs.take(i + 1), rem));
            }
        } else {
            proof {
                assert(without_contacts(cs.take(i + 1), rem) =~~= kept_deep);
            }
        }
        i = i + 1;
    }
    proof {
        assert(cs.take(cs.len() as int) =~= cs);
    }
    *apeople = kept;
}

/// Resolves one remote-only contact for a given choice: keeping the
/// remote side means deleting the contact remotely (which needs its
/// resource identifier); keeping the local side means adopting it into
/// the local file as a new record with a freshly generated nickname.
pub fn resolve_remote_only(
    apeople: &mut Vec<LocalContact>,
    gperson: &RemoteContact,
    email: &String,
    choice: UpdateSource,
) -> (r: Result<Option<RemoteOp>, SyncError>)
    ensures
        choice == UpdateSource::FromGoogle ==> final(apeople).deep_view() == old(apeople).deep_view() && (match gperson@.resource_id {
            Some(rid) => r matches Ok(Some(RemoteOp::Delete { resource_id })) && resource_id@
                == rid,
            None => r matches Err(e) && e == SyncError::MissingResourceId,
        }),
        choice == UpdateSource::FromAddressBook ==> (r matches Ok(None)) && final(apeople).deep_view() == old(apeople).deep_view().push(adopted_contact(gperson@, email@)),
{
    match choice {
        UpdateSource::FromGoogle => {
            match &gperson.resource_id {
                Some(rid) => Ok(Some(RemoteOp::Delete { resource_id: rid.clone() })),
                None => Err(SyncError::MissingResourceId),
            }
        },
        UpdateSource::FromAddressBook => {
            let gname = get_gcontact_name(gperson);
            let gbiography = get_gcontact_biography(gperson);
            let mut fresh_pool: Vec<String> = Vec::new();
            proof {
                assert(fresh_pool.deep_view() =~~= Seq::<Seq<char>>::empty());
            }
            let nickname = generate_nickname(gname.as_str(), 1, &mut fresh_pool);
            let ghost apeople_deep = old(apeople).deep_view();
            let contact = LocalContact {
                nickname,
                display_name: gname,
                email: email.clone(),
                fcc: String::new(),
                note: gbiography,
            };
            proof {
                assert(contact@ =~~= adopted_contact(gperson@, email@));
            }
            apeople.push(contact);
            proof {
                assert(apeople.deep_view() =~~= apeople_deep.push(
                    adopted_contact(gperson@, email@),
                ));
            }
            Ok(None)
        },
    }
}

/// Resolves one local-only record for a given choice: pushing it to the
/// remote side plans a creation; keeping the remote side removes every
/// local record carrying that email.
pub fn resolve_local_only(
    apeople: &mut Vec<LocalContact>,
    aperson: &LocalContact,
    choice: UpdateSource,
) -> (r: Option<RemoteOp>)
    ensures
        choice == UpdateSource::FromGoogle ==> final(apeople).deep_view() == old(apeople).deep_view() && (r matches Some(RemoteOp::Create { write }) && write@ == create_write_of(
            aperson@,
        )),
        choice == UpdateSource::FromAddressBook ==> r is None && final(apeople).deep_view()
            == without_contacts(
            old(apeople).deep_view(),
            related_local(old(apeople).deep_view(), aperson@.email),
        ),
{
    match choice {
        UpdateSource::FromGoogle => Some(plan_remote_write(None, aperson)),
        UpdateSource::FromAddressBook => {
            let snapshot: Vec<LocalContact> = copy_contacts(apeople);
            let related = get_related_apersons(&snapshot, aperson.email.as_str());
            remove_related_apersons(apeople, &related);
            None
        },
    }
}

fn copy_contacts(v: &Vec<LocalContact>) -> (r: Vec<LocalContact>)
    ensures
        r.deep_view() == v.deep_view(),
{
    let mut r: Vec<LocalContact> = Vec::new();
    let mut i: usize = 0;
    while i < v.len()
        invariant
            i <= v@.len(),
            r.deep_view().len() == i as int,
            forall|j: int| 0 <= j < i ==> r.deep_view()[j] == v.deep_view()[j],
        decreases v@.len() - i,
    {
        r.push(v[i].copied());
        i = i + 1;
    }
    proof {
        assert(r.deep_view() =~~= v.deep_view());
    }
    r
}

/// Resolves one divergent common-email pair for a given choice: when
/// the remote side wins, every local record equal to the matched one is
/// removed and a replacement built from the remote contact (keeping the
/// old pass-through field) is appended; when the local side wins, a
/// remote update (or creation, for a contact with no resource
/// identifier) is planned.
pub fn resolve_common_divergence(
    apeople: &mut Vec<LocalContact>,
    aperson: &LocalContact,
    gperson: &RemoteContact,
    email: &String,
    choice: UpdateSource,
) -> (r: Option<RemoteOp>)
    ensures
        choice == UpdateSource::FromGoogle ==> r is None && final(apeople).deep_view()
            == without_contacts(old(apeople).deep_view(), seq![aperson@]).push(
            replacement_contact(aperson@, gperson@, email@),
        ),
        choice == UpdateSource::FromAddressBook ==> final(apeople).deep_view() == old(apeople).deep_view() && (match gperson@.resource_id {
            Some(rid) => r matches Some(RemoteOp::Update { resource_id, write }) && resource_id@
                == rid && write@ == update_write_of(aperson@),
            None => r matches Some(RemoteOp::Create { write }) && write@ == update_write_of(
                aperson@,
            ),
        }),
{
    match choice {
        UpdateSource::FromGoogle => {
            let gname = get_gcontact_name(gperson);
            let gbiography = get_gcontact_biography(gperson);
            let fcc = aperson.fcc.clone();
            let single: Vec<&LocalContact> = vec![aperson];
            proof {
                assert(single.deep_view() =~~= seq![aperson@]);
            }
            remove_related_apersons(apeople, &single);
            let mut fresh_pool: Vec<String> = Vec::new();
            proof {
                assert(fresh_pool.deep_view() =~~= Seq::<Seq<char>>::empty());
            }
            let nickname = generate_nickname(gname.as_str(), 1, &mut fresh_pool);
            let ghost removed = apeople.deep_view();
            let contact = LocalContact {
                nickname,
                display_name: gname,
                email: email.clone(),
                fcc,
                note: gbiography,
            };
            proof {
                assert(contact@ =~~= replacement_contact(aperson@, gperson@, email@));
            }
            apeople.push(contact);
            proof {
                assert(apeople.deep_view() =~~= removed.push(
                    replacement_contact(aperson@, gperson@, email@),
                ));
            }
            None
        },
        UpdateSource::FromAddressBook => Some(plan_remote_write(Some(gperson), aperson)),
    }
}

/// Maps one line of operator input to the chosen update source: a
/// lone `g` or `a` (either case, surrounding whitespace ignored); any
/// other input names no source and cancels the operation.
pub fn parse_update_source(input: &str) -> (r: Option<UpdateSource>)
    ensures
        trim_spec(input@) == seq!['g'] || trim_spec(input@) == seq!['G'] ==> r == Some(
            UpdateSource::FromGoogle,
        ),
        trim_spec(input@) == seq!['a'] || trim_spec(input@) == seq!['A'] ==> r == Some(
            UpdateSource::FromAddressBook,
        ),
        !(trim_spec(input@) == seq!['g'] || trim_spec(input@) == seq!['G'] || trim_spec(input@)
            == seq!['a'] || trim_spec(input@) == seq!['A']) ==> r is None,
{
    let v = str_chars(input);
    let t = trim_chars(&v);
    if t.len() == 1 && (t[0] == 'g' || t[0] == 'G') {
        proof {
            assert(trim_spec(input@) =~= seq![t@[0]]);
        }
        Some(UpdateSource::FromGoogle)
    } else if t.len() == 1 && (t[0] == 'a' || t[0] == 'A') {
        proof {
            assert(trim_spec(input@) =~= seq![t@[0]]);
        }
        Some(UpdateSource::FromAddressBook)
    } else {
        proof {
            if trim_spec(input@) == seq!['g'] || trim_spec(input@) == seq!['G'] || trim_spec(
                input@,
            ) == seq!['a'] || trim_spec(input@) == seq!['A'] {
                assert(t@.len() == 1);
                assert(t@[0] == trim_spec(input@)[0]);
            }
        }
        None
    }
}

/// Whether one line of operator input confirms an overwrite: a lone
/// `y` (either case, surrounding whitespace ignored).
pub fn confirms_overwrite(input: &str) -> (r: bool)
    ensures
        r == (trim_spec(input@) == seq!['y'] || trim_spec(input@) == seq!['Y']),
{
    let v = str_chars(input);
    let t = trim_chars(&v);
    if t.len() == 1 && (t[0] == 'y' || t[0] == 'Y') {
        proof {
            assert(trim_spec(input@) =~= seq![t@[0]]);
        }
        true
    } else {
        proof {
            if trim_spec(input@) == seq!['y'] || trim_spec(input@) == seq!['Y'] {
                assert(t@.len() == 1);
                assert(t@[0] == trim_spec(input@)[0]);
            }
        }
        false
    }
}

/// The email values of a remote contact's email records, in order,
/// with the empty string for an unset value.
pub open spec fn gemail_values(g: RemoteContactView) -> Seq<Seq<char>> {
    match g.email_addresses {
        Some(l) => l.map_values(|o: Option<Seq<char>>| crate::normalize::opt_or_empty(o)),
        None => Seq::empty(),
    }
}

/// The nickname pool an initial-export batch starts from: the remote
/// nickname when there is one, else empty.
pub open spec fn init_pool(g: RemoteContactView) -> Seq<Seq<char>> {
    if gcontact_nickname(g).len() > 0 {
        seq![gcontact_nickname(g)]
    } else {
        Seq::empty()
    }
}

/// The records an initial export writes for one contact: one row per
/// email record, all with the contact's name and note, each with the
/// next generated nickname; nothing when the generator's counter bound
/// would be exceeded along the way.
pub open spec fn init_rows_from(
    name: Seq<char>,
    note: Seq<char>,
    emails: Seq<Seq<char>>,
    count: nat,
    pool: Seq<Seq<char>>,
) -> Option<Seq<LocalContactView>>
    decreases emails.len(),
{
    if emails.len() == 0 {
        Some(Seq::empty())
    } else if gen_counter(name, pool) + pool.len() + 2 > 0xFFFF_FFFF {
        None
    } else {
        let nick = gen_nickname(name, count, pool);
        let row = LocalContactView {
            nickname: nick,
            display_name: name,
            email: emails[0],
            fcc: Seq::empty(),
            note: note,
        };
        match init_rows_from(name, note, emails.drop_first(), count, pool.push(nick)) {
            Some(rest) => Some(seq![row] + rest),
            None => None,
        }
    }
}

proof fn lemma_init_rows_from_distinct(
    name: Seq<char>,
    note: Seq<char>,
    emails: Seq<Seq<char>>,
    count: nat,
    pool: Seq<Seq<char>>,
)
    requires
        count > 1,
    ensures
        init_rows_from(name, note, emails, count, pool) matches Some(rows) ==> (forall|
            i: int,
            j: int,
        |
            0 <= i < j < rows.len() ==> rows[i].nickname != rows[j].nickname) && (forall|i: int|
            0 <= i < rows.len() ==> !pool.contains(#[trigger] rows[i].nickname)),
    decreases emails.len(),
{
    if emails.len() == 0 || gen_counter(name, pool) + pool.len() + 2 > 0xFFFF_FFFF {
    } else {
        let nick = gen_nickname(name, count, pool);
        crate::nickname::lemma_generated_nickname_fresh(name, count, pool);
        lemma_init_rows_from_distinct(name, note, emails.drop_first(), count, pool.push(nick));
        match init_rows_from(name, note, emails.drop_first(), count, pool.push(nick)) {
            Some(rest) => {
                let rows = init_rows_from(name, note, emails, count, pool)->Some_0;
                assert forall|i: int|
                    0 <= i < rows.len() implies !pool.contains(#[trigger] rows[i].nickname) by {
                    if i > 0 {
                        assert(rows[i].nickname == rest[i - 1].nickname);
                        assert(!pool.push(nick).contains(rest[i - 1].nickname));
                        if pool.contains(rest[i - 1].nickname) {
                            let w = choose|w: int|
                                0 <= w < pool.len() && pool[w] == rest[i - 1].nickname;
                            assert(pool.push(nick)[w] == rest[i - 1].nickname);
                        }
                    }
                }
                assert forall|i: int, j: int|
                    0 <= i < j < rows.len() implies rows[i].nickname != rows[j].nickname by {
                    if i == 0 {
                        assert(rows[j].nickname == rest[j - 1].nickname);
                        assert(!pool.push(nick).contains(rest[j - 1].nickname));
                        assert(pool.push(nick)[pool.len() as int] == nick);
                        assert(rest[j - 1].nickname != nick);
                    } else {
                        assert(rows[i].nickname == rest[i - 1].nickname);
                        assert(rows[j].nickname == rest[j - 1].nickname);
                    }
                }
            },
            None => {},
        }
    }
}

/// Nickname uniqueness for one export batch: a contact with more than
/// one email address gets pairwise-distinct nicknames across its rows,
/// none of them a nickname the batch's pool already held.
pub proof fn lemma_init_row_nicknames_distinct(g: RemoteContactView)
    requires
        gemail_values(g).len() > 1,
    ensures
        init_rows(g) matches Some(rows) ==> (forall|i: int, j: int|
            0 <= i < j < rows.len() ==> rows[i].nickname != rows[j].nickname) && (forall|i: int|
            0 <= i < rows.len() ==> !init_pool(g).contains(#[trigger] rows[i].nickname)),
{
    if crate::normalize::has_name_or_org(g) {
        lemma_init_rows_from_distinct(
            gcontact_name(g),
            gcontact_biography(g),
            gemail_values(g),
            gemail_values(g).len(),
            init_pool(g),
        );
    }
}

/// The rows one remote contact contributes to an initial export: none
/// at all for a contact with neither name nor organization.
pub open spec fn init_rows(g: RemoteContactView) -> Option<Seq<LocalContactView>> {
    if crate::normalize::has_name_or_org(g) {
        init_rows_from(
            gcontact_name(g),
            gcontact_biography(g),
            gemail_values(g),
            gemail_values(g).len(),
            init_pool(g),
        )
    } else {
        Some(Seq::empty())
    }
}

/// Builds the local records an initial export writes for one remote
/// contact: a contact without a name or organization contributes
/// nothing, and each email record becomes one row with a nickname from
/// the batch's generator. Yields nothing only in the pathological case
/// where the nickname counter would run out of range.
pub fn init_contacts_for_person(gperson: &RemoteContact) -> (r: Option<Vec<LocalContact>>)
    ensures
        init_rows(gperson@) matches Some(rows) ==> r matches Some(v) && v.deep_view() == rows,
        init_rows(gperson@) is None ==> r is None,
{
    if !crate::normalize::has_name_or_organization(gperson) {
        let empty_rows: Vec<LocalContact> = Vec::new();
        proof {
            assert(empty_rows.deep_view() =~~= Seq::<LocalContactView>::empty());
        }
        return Some(empty_rows);
    }
    let name = get_gcontact_name(gperson);
    let note = get_gcontact_biography(gperson);
    let mut pool: Vec<String> = Vec::new();
    let nickname_from_g = get_gcontact_nickname(gperson);
    if !nickname_from_g.as_str().is_empty() {
        pool.push(nickname_from_g);
    }
    proof {
        assert(pool.deep_view() =~~= init_pool(gperson@));
    }
    let entries: Vec<Option<String>> = match &gperson.email_addresses {
        Some(l) => copy_email_entries(l),
        None => Vec::new(),
    };
    let ghost emails_all = gemail_values(gperson@);
    proof {
        if gperson@.email_addresses is None {
            assert(entries.deep_view() =~~= Seq::<Option<Seq<char>>>::empty());
        }
        assert(entries.deep_view().map_values(
            |o: Option<Seq<char>>| crate::normalize::opt_or_empty(o),
        ) =~~= emails_all);
    }
    let count = entries.len();
    let mut rows: Vec<LocalContact> = Vec::new();
    let mut i: usize = 0;
    proof {
        assert(emails_all.skip(0) =~= emails_all);
        assert(rows.deep_view() =~~= Seq::<LocalContactView>::empty());
    }
    while i < entries.len()
        invariant
            i <= entries@.len(),
            count == entries@.len(),
            name@ == gcontact_name(gperson@),
            note@ == gcontact_biography(gperson@),
            crate::normalize::has_name_or_org(gperson@),
            emails_all == gemail_values(gperson@),
            emails_all.len() == entries@.len(),
            forall|j: int|
                0 <= j < entries@.len() ==> emails_all[j] == crate::normalize::opt_or_empty(
                    entries@[j].deep_view(),
                ),
            ({
                let rest = init_rows_from(
                    name@,
                    note@,
                    emails_all.skip(i as int),
                    count as nat,
                    pool.deep_view(),
                );
                match rest {
                    Some(tail) => init_rows(gperson@) == Some(rows.deep_view() + tail),
                    None => init_rows(gperson@) is None,
                }
            }),
        decreases entries@.len() - i,
    {
        let ghost pool0 = pool.deep_view();
        let ghost rows0 = rows.deep_view();
        proof {
            assert(emails_all.skip(i as int).len() > 0);
            assert(emails_all.skip(i as int)[0] == emails_all[i as int]);
            assert(emails_all.skip(i as int).drop_first() =~= emails_all.skip(i + 1));
        }
        let counter: u32 = if pool.len() > 0 {
            let (_, c) = split_string_and_number(pool[0].as_str());
            proof {
                assert(pool.deep_view()[0] == pool@[0]@);
            }
            c
        } else {
            0
        };
        proof {
            assert(counter as nat == gen_counter(name@, pool.deep_view()));
        }
        let pool_len = pool.len();
        if pool_len as u64 >= 0xFFFF_FFFF || counter as u64 + pool_len as u64 + 2 > 0xFFFF_FFFF {
            return None;
        }
        let nickname = generate_nickname(name.as_str(), count, &mut pool);
        let email = match &entries[i] {
            Some(s) => s.clone(),
            None => String::new(),
        };
        proof {
            assert(email@ == emails_all[i as int]);
        }
        let row = LocalContact {
            nickname,
            display_name: name.clone(),
            email,
            fcc: String::new(),
            note: note.clone(),
        };
        proof {
            assert(row@ =~~= LocalContactView {
                nickname: gen_nickname(name@, count as nat, pool0),
                display_name: name@,
                email: emails_all[i as int],
                fcc: Seq::empty(),
                note: note@,
            });
        }
        rows.push(row);
        i = i + 1;
        proof {
            assert(rows.deep_view() =~~= rows0.push(
                LocalContactView {
                    nickname: gen_nickname(name@, count as nat, pool0),
                    display_name: name@,
                    email: emails_all[i - 1],
                    fcc: Seq::empty(),
                    note: note@,
                },
            ));
            let rest = init_rows_from(
                name@,
                note@,
                emails_all.skip(i as int),
                count as nat,
                pool.deep_view(),
            );
            match rest {
                Some(tail) => {
                    assert(rows0 + (seq![
                        LocalContactView {
                            nickname: gen_nickname(name@, count as nat, pool0),
                            display_name: name@,
                            email: emails_all[i - 1],
                            fcc: Seq::empty(),
                            note: note@,
                        },
                    ] + tail) =~~= rows.deep_view() + tail);
                },
                None => {},
            }
        }
    }
    proof {
        assert(emails_all.skip(entries@.len() as int) =~= Seq::<Seq<char>>::empty());
        assert(rows.deep_view() + Seq::<LocalContactView>::empty() =~~= rows.deep_view());
    }
    Some(rows)
}

fn copy_email_entries(l: &Vec<Option<String>>) -> (r: Vec<Option<String>>)
    ensures
        r.deep_view() == l.deep_view(),
{
    let mut r: Vec<Option<String>> = Vec::new();
    let mut i: usize = 0;
    while i < l.len()
        invariant
            i <= l@.len(),
            r.deep_view().len() == i as int,
            forall|j: int| 0 <= j < i ==> r.deep_view()[j] == l.deep_view()[j],
        decreases l@.len() - i,
    {
        let entry = match &l[i] {
            Some(s) => Some(s.clone()),
            None => None,
        };
        r.push(entry);
        i = i + 1;
    }
    proof {
        assert(r.deep_view() =~~= l.deep_view());
    }
    r
}

/// The field mask a remote create or update is restricted to.
pub fn write_field_mask() -> (r: String)
    ensures
        r@ == "nicknames,names,emailAddresses,biographies"@,
{
    String::from_str("nicknames,names,emailAddresses,biographies")
}

/// The field mask the full contact list is fetched with.
pub fn fetch_field_mask() -> (r: String)
    ensures
        r@ == "nicknames,names,organizations,emailAddresses,biographies"@,
{
    String::from_str("nicknames,names,organizations,emailAddresses,biographies")
}

} // verus!
