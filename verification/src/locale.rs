//! Locale selection: turns the value of a `LANG`-style environment
//! setting into the locale code the message bundle is loaded for,
//! falling back to `en-US` whenever the value is unset, the `C` locale,
//! or not in the common `language-REGION` shape.

use vstd::prelude::*;
use vstd::string::*;
use crate::text::{chars_string, str_chars, subrange_vec};

verus! {

/// What `char::is_alphanumeric` returns for a character: membership in
/// the Unicode alphabetic and numeric categories.
pub uninterp spec fn char_alphanumeric(c: char) -> bool;

/// Relies on `char::is_alphanumeric`: the result depends on the
/// character alone.
pub assume_specification[ char::is_alphanumeric ](c: char) -> (r: bool)
    ensures
        r == char_alphanumeric(c),
;

/// How many dashes `s` holds.
pub open spec fn dash_count(s: Seq<char>) -> nat
    decreases s.len(),
{
    if s.len() == 0 {
        0
    } else {
        dash_count(s.drop_last()) + (if s.last() == '-' {
            1nat
        } else {
            0nat
        })
    }
}

/// A locale code in the common shape: two dash-separated parts, each
/// all alphanumeric (either may be empty).
pub open spec fn valid_locale(s: Seq<char>) -> bool {
    dash_count(s) == 1 && (forall|j: int|
        0 <= j < s.len() && s[j] != '-' ==> char_alphanumeric(s[j]))
}

fn valid_locale_chars(v: &Vec<char>) -> (r: bool)
    ensures
        r == valid_locale(v@),
{
    let mut dashes: usize = 0;
    let mut all_ok = true;
    let mut i: usize = 0;
    while i < v.len()
        invariant
            i <= v@.len(),
            dashes <= i,
            dashes as nat == dash_count(v@.take(i as int)),
            all_ok == (forall|j: int|
                0 <= j < i && v@[j] != '-' ==> char_alphanumeric(v@[j])),
        decreases v@.len() - i,
    {
        proof {
            assert(v@.take(i + 1).drop_last() =~= v@.take(i as int));
            assert(v@.take(i + 1).last() == v@[i as int]);
        }
        let c = v[i];
        if c == '-' {
            dashes = dashes + 1;
        } else if !c.is_alphanumeric() {
            all_ok = false;
        }
        i = i + 1;
    }
    proof {
        assert(v@.take(v@.len() as int) =~= v@);
    }
    dashes == 1 && all_ok
}

/// Whether a locale code has the common `language-REGION` shape: two
/// dash-separated parts, each made only of alphanumeric characters.
pub fn is_valid_locale_format(code: &str) -> (r: bool)
    ensures
        r == valid_locale(code@),
{
    let v = str_chars(code);
    valid_locale_chars(&v)
}

/// Index of the first dot in `s` at or after `i`, or the length.
pub open spec fn dot_idx_from(s: Seq<char>, i: int) -> int
    decreases s.len() - i,
{
    if i < 0 || i >= s.len() {
        s.len() as int
    } else if s[i] == '.' {
        i
    } else {
        dot_idx_from(s, i + 1)
    }
}

/// The underscore-to-dash step of locale normalization.
pub open spec fn underscores_to_dashes(s: Seq<char>) -> Seq<char> {
    s.map_values(|c: char| if c == '_' { '-' } else { c })
}

pub open spec fn default_locale() -> Seq<char> {
    seq!['e', 'n', '-', 'U', 'S']
}

/// The locale code extracted from a `LANG`-style value: everything
/// before the first dot, with underscores turned into dashes.
pub open spec fn extracted_code(l: Seq<char>) -> Seq<char> {
    underscores_to_dashes(l.take(dot_idx_from(l, 0)))
}

/// The locale a run uses, from the `LANG` environment value: `en-US`
/// when the value is absent, empty or the `C` locale, else the
/// extracted code when it has the common shape, else `en-US`.
pub open spec fn locale_of(lang: Option<Seq<char>>) -> Seq<char> {
    match lang {
        None => default_locale(),
        Some(l) => if l == seq!['C'] || l.len() == 0 {
            default_locale()
        } else if valid_locale(extracted_code(l)) {
            extracted_code(l)
        } else {
            default_locale()
        },
    }
}

fn default_locale_string() -> (r: String)
    ensures
        r@ == default_locale(),
{
    let r = String::from_str("en-US");
    proof {
        reveal_strlit("en-US");
        assert(r@ =~= default_locale());
    }
    r
}

fn find_dot(v: &Vec<char>, i: usize) -> (r: usize)
    requires
        i <= v@.len(),
    ensures
        r as int == dot_idx_from(v@, i as int),
        i <= r <= v@.len(),
    decreases v@.len() - i,
{
    if i == v.len() {
        i
    } else if v[i] == '.' {
        i
    } else {
        find_dot(v, i + 1)
    }
}

/// The locale to use, given the `LANG` environment value when one is
/// set.
pub fn locale_from_lang(lang: Option<&str>) -> (r: String)
    ensures
        r@ == locale_of(lang.deep_view()),
{
    match lang {
        None => default_locale_string(),
        Some(l) => {
            let v = str_chars(l);
            if v.len() == 0 || (v.len() == 1 && v[0] == 'C') {
                proof {
                    if v@.len() == 1 && v@[0] == 'C' {
                        assert(v@ =~= seq!['C']);
                    }
                }
                default_locale_string()
            } else {
                proof {
                    assert(v@ != seq!['C']);
                }
                let k = find_dot(&v, 0);
                let head = subrange_vec(&v, 0, k);
                proof {
                    assert(head@ =~= v@.take(k as int));
                }
                let mut code: Vec<char> = Vec::new();
                let mut i: usize = 0;
                while i < head.len()
                    invariant
                        i <= head@.len(),
                        code@.len() == i as int,
                        forall|j: int|
                            0 <= j < i ==> code@[j] == (if head@[j] == '_' {
                                '-'
                            } else {
                                head@[j]
                            }),
                    decreases head@.len() - i,
                {
                    let c = head[i];
                    if c == '_' {
                        code.push('-');
                    } else {
                        code.push(c);
                    }
                    i = i + 1;
                }
                proof {
                    assert(code@ =~= underscores_to_dashes(head@));
                    assert(code@ == extracted_code(v@));
                }
                if valid_locale_chars(&code) {
                    chars_string(&code)
                } else {
                    default_locale_string()
                }
            }
        },
    }
}

} // verus!
