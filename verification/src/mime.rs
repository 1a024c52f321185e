//! Decoding of MIME-style encoded header fields: a field of the local
//! file may arrive as `=?UTF-8?B?...?=` (Base64) or `=?UTF-8?Q?...?=`
//! (Quoted-Printable); anything else is used as it is, with only leading
//! whitespace trimmed before the check.

use vstd::prelude::*;
use vstd::utf8::{decode_utf8, valid_utf8};
use crate::text::{chars_string, is_space, lemma_trim_start_is_skip, spec_is_space, str_chars, subrange_vec, trim_start_spec};
use base64::Engine;

verus! {

/// Why a local record could not be decoded.
#[derive(Clone, Copy, PartialEq, Eq, Structural, Debug)]
pub enum FormatError {
    /// A record line split into more than five fields.
    TooManyFields,
    /// A `=?UTF-8?B?...?=` field whose interior is not valid Base64.
    BadBase64,
    /// A `=?UTF-8?B?...?=` field whose decoded bytes are not UTF-8.
    BadUtf8,
}

/// What base64's standard-alphabet engine decodes a string to, or
/// nothing when the string is not valid Base64.
pub uninterp spec fn base64_decoded(s: Seq<char>) -> Option<Seq<u8>>;

/// What quoted_printable's robust-mode decoding yields for a string.
pub uninterp spec fn qp_decoded(s: Seq<char>) -> Seq<u8>;

/// What lossy UTF-8 decoding yields for a byte string: the decoded text,
/// with replacement characters standing in for invalid sequences.
pub uninterp spec fn utf8_lossy(bytes: Seq<u8>) -> Seq<char>;

/// Relies on `base64::engine::general_purpose::STANDARD`'s `decode`:
/// the result is a function of the input characters alone, `Ok` exactly
/// on valid standard-alphabet Base64.
#[verifier::external_body]
fn base64_decode(s: &str) -> (r: Option<Vec<u8>>)
    ensures
        r is Some <==> base64_decoded(s@) is Some,
        r matches Some(v) ==> Some(v@) == base64_decoded(s@),
{
    base64::engine::general_purpose::STANDARD.decode(s).ok()
}

/// Relies on `quoted_printable::decode` with `ParseMode::Robust`: the
/// result is a function of the input characters alone, and robust-mode
/// decoding never fails (every error return in its source is reached
/// only under the strict mode), so the error arm below is dead.
#[verifier::external_body]
fn qp_decode_robust(s: &str) -> (r: Vec<u8>)
    ensures
        r@ == qp_decoded(s@),
{
    match quoted_printable::decode(s, quoted_printable::ParseMode::Robust) {
        Ok(v) => v,
        Err(_) => Vec::new(),
    }
}

/// Relies on `String::from_utf8`: `Ok` exactly on valid UTF-8, decoding
/// the bytes to their text.
#[verifier::external_body]
fn string_from_utf8(bytes: Vec<u8>) -> (r: Option<String>)
    ensures
        r is Some <==> valid_utf8(bytes@),
        r matches Some(v) ==> v@ == decode_utf8(bytes@),
{
    String::from_utf8(bytes).ok()
}

/// Relies on `String::from_utf8_lossy`: valid UTF-8 decodes exactly;
/// invalid sequences are replaced, as the name `utf8_lossy` records.
#[verifier::external_body]
fn string_from_utf8_lossy(bytes: &Vec<u8>) -> (r: String)
    ensures
        r@ == utf8_lossy(bytes@),
        valid_utf8(bytes@) ==> r@ == decode_utf8(bytes@),
{
    String::from_utf8_lossy(bytes.as_slice()).into_owned()
}

pub open spec fn b64_prefix() -> Seq<char> {
    seq!['=', '?', 'U', 'T', 'F', '-', '8', '?', 'B', '?']
}

pub open spec fn qp_prefix() -> Seq<char> {
    seq!['=', '?', 'U', 'T', 'F', '-', '8', '?', 'Q', '?']
}

pub open spec fn enc_suffix() -> Seq<char> {
    seq!['?', '=']
}

/// Whether `s` is an encoded field with the given ten-character prefix:
/// long enough that prefix and `?=` suffix do not overlap.
pub open spec fn has_encoding_form(s: Seq<char>, prefix: Seq<char>) -> bool {
    s.len() >= 12 && s.take(10) == prefix && s.skip(s.len() - 2) == enc_suffix()
}

/// The interior of an encoded field: what stands between the prefix and
/// the `?=` suffix.
pub open spec fn encoded_interior(s: Seq<char>) -> Seq<char> {
    s.subrange(10, s.len() - 2)
}

/// The underscore-to-space step of Quoted-Printable header decoding.
pub open spec fn underscores_to_spaces(s: Seq<char>) -> Seq<char> {
    s.map_values(|c: char| if c == '_' { ' ' } else { c })
}

/// What decoding one field of a local record yields: the trimmed field
/// itself when it is not in an encoded form, the decoded text when it
/// is, or the error when the encoded interior is malformed.
pub open spec fn decode_field(s: Seq<char>) -> Result<Seq<char>, FormatError> {
    let t = trim_start_spec(s);
    if has_encoding_form(t, b64_prefix()) {
        match base64_decoded(encoded_interior(t)) {
            Some(bytes) => if valid_utf8(bytes) {
                Ok(decode_utf8(bytes))
            } else {
                Err(FormatError::BadUtf8)
            },
            None => Err(FormatError::BadBase64),
        }
    } else if has_encoding_form(t, qp_prefix()) {
        Ok(utf8_lossy(qp_decoded(underscores_to_spaces(encoded_interior(t)))))
    } else {
        Ok(t)
    }
}

/// 0 when `t` is not in an encoded form, 1 for the Base64 form, 2 for
/// the Quoted-Printable form.
fn encoding_form_of(t: &Vec<char>) -> (r: u8)
    ensures
        (r == 1) == has_encoding_form(t@, b64_prefix()),
        (r == 2) == has_encoding_form(t@, qp_prefix()),
        r == 0 || r == 1 || r == 2,
{
    let n = t.len();
    if n >= 12 && t[0] == '=' && t[1] == '?' && t[2] == 'U' && t[3] == 'T' && t[4] == 'F' && t[5]
        == '-' && t[6] == '8' && t[7] == '?' && t[9] == '?' && t[n - 2] == '?' && t[n - 1] == '='
        && (t[8] == 'B' || t[8] == 'Q') {
        proof {
            assert(t@.skip(t@.len() - 2) =~= enc_suffix());
            if t@[8] == 'B' {
                assert(t@.take(10) =~= b64_prefix());
            } else {
                assert(t@.take(10) =~= qp_prefix());
            }
        }
        if t[8] == 'B' {
            1
        } else {
            2
        }
    } else {
        proof {
            if has_encoding_form(t@, b64_prefix()) {
                assert(t@[8] == b64_prefix()[8]);
                assert(t@[0] == b64_prefix()[0] && t@[1] == b64_prefix()[1] && t@[2]
                    == b64_prefix()[2] && t@[3] == b64_prefix()[3] && t@[4] == b64_prefix()[4]
                    && t@[5] == b64_prefix()[5] && t@[6] == b64_prefix()[6] && t@[7]
                    == b64_prefix()[7] && t@[9] == b64_prefix()[9]);
                assert(t@[t@.len() - 2] == enc_suffix()[0] && t@[t@.len() - 1] == enc_suffix()[1]);
            }
            if has_encoding_form(t@, qp_prefix()) {
                assert(t@[8] == qp_prefix()[8]);
                assert(t@[0] == qp_prefix()[0] && t@[1] == qp_prefix()[1] && t@[2]
                    == qp_prefix()[2] && t@[3] == qp_prefix()[3] && t@[4] == qp_prefix()[4]
                    && t@[5] == qp_prefix()[5] && t@[6] == qp_prefix()[6] && t@[7]
                    == qp_prefix()[7] && t@[9] == qp_prefix()[9]);
                assert(t@[t@.len() - 2] == enc_suffix()[0] && t@[t@.len() - 1] == enc_suffix()[1]);
            }
        }
        0
    }
}

/// Decodes a field if it carries one of the two encoded forms; otherwise
/// returns the field with only its leading whitespace trimmed.
pub fn decode_if_encoded(s: &str) -> (r: Result<String, FormatError>)
    ensures
        decode_field(s@) matches Ok(t) ==> r matches Ok(v) && v@ == t,
        decode_field(s@) matches Err(e) ==> r matches Err(e2) && e2 == e,
{
    let v = str_chars(s);
    decode_chars(&v)
}

/// The decode step on a field already held as characters.
pub(crate) fn decode_chars(v: &Vec<char>) -> (r: Result<String, FormatError>)
    ensures
        decode_field(v@) matches Ok(t) ==> r matches Ok(out) && out@ == t,
        decode_field(v@) matches Err(e) ==> r matches Err(e2) && e2 == e,
{
    let mut k: usize = 0;
    while k < v.len() && is_space(v[k])
        invariant
            0 <= k <= v@.len(),
            forall|j: int| 0 <= j < k ==> spec_is_space(v@[j]),
        decreases v@.len() - k,
    {
        k = k + 1;
    }
    let t = subrange_vec(&v, k, v.len());
    proof {
        lemma_trim_start_is_skip(v@, k as int);
        assert(v@.subrange(k as int, v@.len() as int) =~= v@.skip(k as int));
        assert(t@ == trim_start_spec(v@));
    }
    let form = encoding_form_of(&t);
    if form == 1 {
        let interior = subrange_vec(&t, 10, t.len() - 2);
        let interior_str = chars_string(&interior);
        match base64_decode(interior_str.as_str()) {
            Some(bytes) => {
                match string_from_utf8(bytes) {
                    Some(text) => Ok(text),
                    None => Err(FormatError::BadUtf8),
                }
            },
            None => Err(FormatError::BadBase64),
        }
    } else if form == 2 {
        let interior = subrange_vec(&t, 10, t.len() - 2);
        let mut replaced: Vec<char> = Vec::new();
        let mut i: usize = 0;
        while i < interior.len()
            invariant
                i <= interior@.len(),
                replaced@.len() == i as int,
                forall|j: int|
                    0 <= j < i ==> replaced@[j] == (if interior@[j] == '_' {
                        ' '
                    } else {
                        interior@[j]
                    }),
            decreases interior@.len() - i,
        {
            let c = interior[i];
            if c == '_' {
                replaced.push(' ');
            } else {
                replaced.push(c);
            }
            i = i + 1;
        }
        proof {
            assert(replaced@ =~= underscores_to_spaces(interior@));
        }
        let replaced_str = chars_string(&replaced);
        let bytes = qp_decode_robust(replaced_str.as_str());
        Ok(string_from_utf8_lossy(&bytes))
    } else {
        Ok(chars_string(&t))
    }
}

} // verus!
