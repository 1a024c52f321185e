//! Character and string helpers shared by the codec, the nickname
//! generator and the engine: whitespace classification, conversions
//! between `&str` and `Vec<char>`, and decimal digits.

use vstd::prelude::*;
use vstd::string::*;

verus! {

/// Relies on `String::push`: appends one character to the string.
pub assume_specification[ String::push ](s: &mut String, ch: char)
    ensures
        final(s)@ == old(s)@.push(ch),
;

/// The Unicode `White_Space` code points, the set that `str::trim_start`
/// and `split_whitespace` strip in the file format this library reads.
pub open spec fn spec_is_space(c: char) -> bool {
    let u = c as u32;
    (9 <= u && u <= 13) || u == 32 || u == 0x85 || u == 0xA0 || u == 0x1680 || (0x2000 <= u && u
        <= 0x200A) || u == 0x2028 || u == 0x2029 || u == 0x202F || u == 0x205F || u == 0x3000
}

pub fn is_space(c: char) -> (r: bool)
    ensures
        r == spec_is_space(c),
{
    let u = c as u32;
    (9 <= u && u <= 13) || u == 32 || u == 0x85 || u == 0xA0 || u == 0x1680 || (0x2000 <= u && u
        <= 0x200A) || u == 0x2028 || u == 0x2029 || u == 0x202F || u == 0x205F || u == 0x3000
}

/// An ASCII decimal digit, the only digits the nickname suffix rules use.
pub open spec fn spec_is_digit(c: char) -> bool {
    let u = c as u32;
    48 <= u && u <= 57
}

pub fn is_digit_char(c: char) -> (r: bool)
    ensures
        r == spec_is_digit(c),
{
    let u = c as u32;
    48 <= u && u <= 57
}

/// The characters of `s`, in order.
pub fn str_chars(s: &str) -> (v: Vec<char>)
    ensures
        v@ == s@,
{
    let n = s.unicode_len();
    let mut v: Vec<char> = Vec::new();
    let mut i: usize = 0;
    while i < n
        invariant
            i <= n,
            n == s@.len(),
            v@ == s@.take(i as int),
        decreases n - i,
    {
        let c = s.get_char(i);
        v.push(c);
        i = i + 1;
        proof {
            assert(s@.take(i as int) =~= s@.take(i - 1).push(s@[i - 1]));
        }
    }
    proof {
        assert(s@.take(n as int) =~= s@);
    }
    v
}

/// `s` with its leading whitespace removed.
pub open spec fn trim_start_spec(s: Seq<char>) -> Seq<char>
    decreases s.len(),
{
    if s.len() > 0 && spec_is_space(s[0]) {
        trim_start_spec(s.drop_first())
    } else {
        s
    }
}

/// `s` with its trailing whitespace removed.
pub open spec fn strip_trailing_spaces(s: Seq<char>) -> Seq<char>
    decreases s.len(),
{
    if s.len() == 0 {
        s
    } else if spec_is_space(s.last()) {
        strip_trailing_spaces(s.drop_last())
    } else {
        s
    }
}

/// The maximal run of non-whitespace characters at the end of `s`
/// (empty when `s` ends with whitespace or is empty).
pub open spec fn trailing_run(s: Seq<char>) -> Seq<char>
    decreases s.len(),
{
    if s.len() == 0 || spec_is_space(s.last()) {
        Seq::empty()
    } else {
        trailing_run(s.drop_last()).push(s.last())
    }
}

/// `s` with whitespace removed from both ends.
pub open spec fn trim_spec(s: Seq<char>) -> Seq<char> {
    trim_start_spec(strip_trailing_spaces(s))
}

pub(crate) proof fn lemma_trim_start_is_skip(s: Seq<char>, k: int)
    requires
        0 <= k <= s.len(),
        forall|j: int| 0 <= j < k ==> spec_is_space(s[j]),
        k == s.len() || !spec_is_space(s[k]),
    ensures
        trim_start_spec(s) == s.skip(k),
    decreases k,
{
    if k == 0 {
        assert(s.skip(0) =~= s);
    } else {
        assert(spec_is_space(s[0]));
        lemma_trim_start_is_skip(s.drop_first(), k - 1);
        assert(s.drop_first().skip(k - 1) =~= s.skip(k));
    }
}

pub(crate) fn strip_end_len(v: &Vec<char>, n: usize) -> (r: usize)
    requires
        n <= v@.len(),
    ensures
        r <= n,
        strip_trailing_spaces(v@.take(n as int)) == v@.take(r as int),
    decreases n,
{
    if n == 0 {
        proof {
            assert(v@.take(0) =~= Seq::<char>::empty());
        }
        0
    } else if is_space(v[n - 1]) {
        proof {
            assert(v@.take(n as int).drop_last() =~= v@.take(n - 1));
            assert(v@.take(n as int).last() == v@[n - 1]);
        }
        strip_end_len(v, n - 1)
    } else {
        proof {
            assert(v@.take(n as int).last() == v@[n - 1]);
        }
        n
    }
}

pub(crate) fn subrange_vec(v: &Vec<char>, from: usize, to: usize) -> (r: Vec<char>)
    requires
        from <= to <= v@.len(),
    ensures
        r@ == v@.subrange(from as int, to as int),
{
    let mut r: Vec<char> = Vec::new();
    let mut i: usize = from;
    while i < to
        invariant
            from <= i <= to <= v@.len(),
            r@ == v@.subrange(from as int, i as int),
        decreases to - i,
    {
        r.push(v[i]);
        i = i + 1;
        proof {
            assert(v@.subrange(from as int, i as int) =~= v@.subrange(from as int, i - 1).push(
                v@[i - 1],
            ));
        }
    }
    r
}

/// The characters of `v` with whitespace removed from both ends.
pub fn trim_chars(v: &Vec<char>) -> (r: Vec<char>)
    ensures
        r@ == trim_spec(v@),
{
    let e = strip_end_len(v, v.len());
    proof {
        assert(v@.take(v@.len() as int) =~= v@);
    }
    let ghost stripped = strip_trailing_spaces(v@);
    let mut k: usize = 0;
    while k < e && is_space(v[k])
        invariant
            0 <= k <= e <= v@.len(),
            stripped == v@.take(e as int),
            forall|j: int| 0 <= j < k ==> spec_is_space(v@[j]),
        decreases e - k,
    {
        k = k + 1;
    }
    proof {
        assert(forall|j: int| 0 <= j < k ==> spec_is_space(stripped[j]));
        lemma_trim_start_is_skip(stripped, k as int);
        assert(stripped.skip(k as int) =~= v@.subrange(k as int, e as int));
    }
    subrange_vec(v, k, e)
}

/// Whether some element of `v` holds exactly the characters of `s`.
pub fn vec_contains_string(v: &Vec<String>, s: &String) -> (r: bool)
    ensures
        r == v.deep_view().contains(s@),
{
    let mut i: usize = 0;
    while i < v.len()
        invariant
            i <= v@.len(),
            forall|j: int| 0 <= j < i ==> v@[j]@ != s@,
        decreases v@.len() - i,
    {
        if v[i].eq(s) {
            proof {
                assert(v.deep_view()[i as int] == s@);
            }
            return true;
        }
        i = i + 1;
    }
    proof {
        assert(forall|j: int| 0 <= j < v.deep_view().len() ==> v.deep_view()[j] != s@);
    }
    false
}

/// A `String` holding exactly the characters of `v`.
pub fn chars_string(v: &Vec<char>) -> (s: String)
    ensures
        s@ == v@,
{
    let mut s = String::new();
    let mut i: usize = 0;
    while i < v.len()
        invariant
            i <= v@.len(),
            s@ == v@.take(i as int),
        decreases v@.len() - i,
    {
        s.push(v[i]);
        i = i + 1;
        proof {
            assert(v@.take(i as int) =~= v@.take(i - 1).push(v@[i - 1]));
        }
    }
    proof {
        assert(v@.take(v@.len() as int) =~= v@);
    }
    s
}

} // verus!
