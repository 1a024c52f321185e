//! The nickname generator: derives a short identifier for a contact from
//! its display name, keeps one generation batch collision-free, and
//! splits existing nicknames into their text and numeric-suffix parts.

use vstd::prelude::*;
use vstd::string::*;
use crate::text::{is_digit_char, is_space, spec_is_digit, str_chars, strip_end_len, strip_trailing_spaces, trailing_run, vec_contains_string};

verus! {

/// Numeric value of an ASCII digit, 0 for anything else.
pub open spec fn digit_val(c: char) -> nat {
    if spec_is_digit(c) {
        (c as u32 - 48) as nat
    } else {
        0
    }
}

/// The ASCII digit for `n` (meaningful for `n < 10`).
pub open spec fn digit_char(n: nat) -> char {
    ((48 + n) as u8) as char
}

/// Decimal digits of `n`, most significant first.
pub open spec fn dec_digits(n: nat) -> Seq<char>
    decreases n,
{
    if n < 10 {
        seq![digit_char(n)]
    } else {
        dec_digits(n / 10).push(digit_char(n % 10))
    }
}

/// Decimal digits of `n`, zero-padded on the left to at least two digits.
pub open spec fn pad2(n: nat) -> Seq<char> {
    if n < 10 {
        seq!['0'].add(dec_digits(n))
    } else {
        dec_digits(n)
    }
}

/// The number a digit string denotes.
pub open spec fn dec_value(s: Seq<char>) -> nat
    decreases s.len(),
{
    if s.len() == 0 {
        0
    } else {
        dec_value(s.drop_last()) * 10 + digit_val(s.last())
    }
}

pub open spec fn all_digits(s: Seq<char>) -> bool {
    forall|i: int| 0 <= i < s.len() ==> spec_is_digit(s[i])
}

/// What parsing `s` as an unsigned 32-bit decimal yields, with 0 for
/// anything that does not parse (empty, a non-digit, overflow).
pub open spec fn parse_or_zero(s: Seq<char>) -> nat {
    if s.len() > 0 && all_digits(s) && dec_value(s) <= 0xFFFF_FFFF {
        dec_value(s)
    } else {
        0
    }
}

/// Index of the first ASCII digit at or after `i`, or the length if none.
pub open spec fn digit_idx_from(s: Seq<char>, i: int) -> int
    decreases s.len() - i,
{
    if i < 0 || i >= s.len() {
        s.len() as int
    } else if spec_is_digit(s[i]) {
        i
    } else {
        digit_idx_from(s, i + 1)
    }
}

/// The text part of `s`: everything before the first ASCII digit.
pub open spec fn string_part(s: Seq<char>) -> Seq<char> {
    s.take(digit_idx_from(s, 0))
}

/// The numeric part of `s` read as a number: everything from the first
/// ASCII digit onward, parsed with 0 as the fallback.
pub open spec fn number_part_value(s: Seq<char>) -> nat {
    parse_or_zero(s.skip(digit_idx_from(s, 0)))
}

proof fn lemma_digit_idx_bounds(s: Seq<char>, i: int)
    requires
        0 <= i <= s.len(),
    ensures
        i <= digit_idx_from(s, i) <= s.len(),
        forall|j: int| i <= j < digit_idx_from(s, i) ==> !spec_is_digit(s[j]),
        digit_idx_from(s, i) < s.len() ==> spec_is_digit(s[digit_idx_from(s, i)]),
    decreases s.len() - i,
{
    if i < s.len() && !spec_is_digit(s[i]) {
        lemma_digit_idx_bounds(s, i + 1);
    }
}

fn find_digit_from(v: &Vec<char>, i: usize) -> (r: usize)
    requires
        i <= v@.len(),
    ensures
        r as int == digit_idx_from(v@, i as int),
    decreases v@.len() - i,
{
    if i == v.len() {
        i
    } else if is_digit_char(v[i]) {
        i
    } else {
        find_digit_from(v, i + 1)
    }
}

/// A `String` holding `v[from..to]`.
pub fn chars_range_string(v: &Vec<char>, from: usize, to: usize) -> (s: String)
    requires
        from <= to <= v@.len(),
    ensures
        s@ == v@.subrange(from as int, to as int),
{
    let mut s = String::new();
    let mut i: usize = from;
    while i < to
        invariant
            from <= i <= to <= v@.len(),
            s@ == v@.subrange(from as int, i as int),
        decreases to - i,
    {
        s.push(v[i]);
        i = i + 1;
        proof {
            assert(v@.subrange(from as int, i as int) =~= v@.subrange(
                from as int,
                i - 1,
            ).push(v@[i - 1]));
        }
    }
    s
}

fn parse_digits_from(v: &Vec<char>, from: usize) -> (r: u32)
    requires
        from <= v@.len(),
    ensures
        r as nat == parse_or_zero(v@.skip(from as int)),
{
    let ghost s = v@.skip(from as int);
    if from == v.len() {
        proof {
            assert(s.len() == 0);
        }
        return 0;
    }
    let mut val: u64 = 0;
    let mut over = false;
    let mut i: usize = from;
    while i < v.len()
        invariant
            from <= i <= v@.len(),
            s == v@.skip(from as int),
            all_digits(s.take(i - from)),
            !over ==> val as nat == dec_value(s.take(i - from)) && val <= 0xFFFF_FFFF,
            over ==> dec_value(s.take(i - from)) > 0xFFFF_FFFF,
        decreases v@.len() - i,
    {
        let c = v[i];
        proof {
            assert(s[i - from] == v@[i as int]);
        }
        if !is_digit_char(c) {
            proof {
                assert(!all_digits(s));
            }
            return 0;
        }
        let d: u64 = (c as u32 - 48) as u64;
        proof {
            assert(s.take(i + 1 - from) =~= s.take(i - from).push(s[i - from]));
            assert(s.take(i + 1 - from).drop_last() =~= s.take(i - from));
        }
        if over {
            proof {
                assert(dec_value(s.take(i + 1 - from)) >= dec_value(s.take(i - from)) * 10);
            }
        } else {
            let next = val * 10 + d;
            if next > 0xFFFF_FFFF {
                over = true;
                val = 0;
            } else {
                val = next;
            }
        }
        i = i + 1;
    }
    proof {
        assert(s.take(v@.len() - from) =~= s);
    }
    if over {
        0
    } else {
        val as u32
    }
}

/// Splits a string at its first ASCII digit into a text part and the
/// number its remainder denotes; the number is 0 when there is no digit,
/// when a non-digit follows the first digit, or when the value does not
/// fit in 32 bits.
pub fn split_string_and_number(s: &str) -> (r: (String, u32))
    ensures
        r.0@ == string_part(s@),
        r.1 as nat == number_part_value(s@),
{
    let v = str_chars(s);
    let k = find_digit_from(&v, 0);
    proof {
        lemma_digit_idx_bounds(v@, 0);
    }
    let text = chars_range_string(&v, 0, k);
    let num = parse_digits_from(&v, k);
    proof {
        assert(v@.subrange(0, k as int) =~= v@.take(k as int));
    }
    (text, num)
}

pub open spec fn unknown_name() -> Seq<char> {
    seq!['U', 'n', 'k', 'n', 'o', 'w', 'n']
}

/// The last whitespace-delimited token of a display name, or `Unknown`
/// when the name holds no token at all.
pub open spec fn last_token_or_unknown(s: Seq<char>) -> Seq<char> {
    let t = trailing_run(strip_trailing_spaces(s));
    if t.len() == 0 {
        unknown_name()
    } else {
        t
    }
}

pub(crate) fn run_start(v: &Vec<char>, n: usize) -> (r: usize)
    requires
        n <= v@.len(),
    ensures
        r <= n,
        trailing_run(v@.take(n as int)) == v@.subrange(r as int, n as int),
    decreases n,
{
    if n == 0 {
        proof {
            assert(v@.subrange(0, 0) =~= Seq::<char>::empty());
            assert(v@.take(0) =~= Seq::<char>::empty());
        }
        0
    } else if is_space(v[n - 1]) {
        proof {
            assert(v@.take(n as int).last() == v@[n - 1]);
            assert(v@.subrange(n as int, n as int) =~= Seq::<char>::empty());
        }
        n
    } else {
        proof {
            assert(v@.take(n as int).last() == v@[n - 1]);
            assert(v@.take(n as int).drop_last() =~= v@.take(n - 1));
        }
        let r = run_start(v, n - 1);
        proof {
            assert(v@.subrange(r as int, n as int) =~= v@.subrange(r as int, n - 1).push(
                v@[n - 1],
            ));
        }
        r
    }
}

/// The last whitespace-delimited part of a display name, the base a
/// fresh nickname is derived from; `Unknown` when the name is all
/// whitespace or empty.
pub fn last_name_part(name: &str) -> (r: String)
    ensures
        r@ == last_token_or_unknown(name@),
{
    let v = str_chars(name);
    let e = strip_end_len(&v, v.len());
    let b = run_start(&v, e);
    proof {
        assert(v@.take(v@.len() as int) =~= v@);
    }
    if b == e {
        let r = String::from_str("Unknown");
        proof {
            reveal_strlit("Unknown");
            assert(r@ =~= unknown_name());
        }
        r
    } else {
        chars_range_string(&v, b, e)
    }
}

/// The candidate nickname for suffix number `m`: the base followed by
/// the zero-padded number.
pub open spec fn candidate_name(base: Seq<char>, m: nat) -> Seq<char> {
    base.add(pad2(m))
}

/// The first suffix number at or after `m` whose candidate is not in the
/// pool; searches at most `fuel` numbers and returns the last one when
/// the fuel runs out.
pub open spec fn first_free_from(base: Seq<char>, m: nat, pool: Seq<Seq<char>>, fuel: nat) -> nat
    decreases fuel,
{
    if fuel == 0 {
        m
    } else if !pool.contains(candidate_name(base, m)) {
        m
    } else {
        first_free_from(base, m + 1, pool, (fuel - 1) as nat)
    }
}

/// The base string the generator works from: the text part of the first
/// pool entry when the pool is non-empty, else the display name's last
/// token.
pub open spec fn gen_base(name: Seq<char>, pool: Seq<Seq<char>>) -> Seq<char> {
    if pool.len() > 0 {
        string_part(pool[0])
    } else {
        last_token_or_unknown(name)
    }
}

/// The starting counter: the numeric suffix of the first pool entry when
/// the pool is non-empty, else 0.
pub open spec fn gen_counter(name: Seq<char>, pool: Seq<Seq<char>>) -> nat {
    if pool.len() > 0 {
        number_part_value(pool[0])
    } else {
        0
    }
}

/// The nickname the generator issues for a contact with `count` email
/// addresses against the given pool: with more than one email, the first
/// collision-free numbered candidate; with one email, the bare base.
pub open spec fn gen_nickname(name: Seq<char>, count: nat, pool: Seq<Seq<char>>) -> Seq<char> {
    let base = gen_base(name, pool);
    let counter = gen_counter(name, pool);
    if count > 1 {
        candidate_name(base, first_free_from(base, counter + 1, pool, pool.len() + 1))
    } else {
        base
    }
}

proof fn lemma_dec_value_of_digits(n: nat)
    ensures
        dec_value(dec_digits(n)) == n,
        dec_digits(n).len() >= 1,
    decreases n,
{
    if n < 10 {
        assert(dec_value(dec_digits(n)) == dec_value(Seq::<char>::empty()) * 10 + digit_val(
            digit_char(n),
        )) by {
            assert(dec_digits(n) == seq![digit_char(n)]);
            assert(seq![digit_char(n)].drop_last() =~= Seq::<char>::empty());
            assert(seq![digit_char(n)].last() == digit_char(n));
        }
        assert(digit_val(digit_char(n)) == n);
    } else {
        lemma_dec_value_of_digits(n / 10);
        assert(dec_value(dec_digits(n)) == dec_value(dec_digits(n / 10)) * 10 + digit_val(
            digit_char(n % 10),
        )) by {
            assert(dec_digits(n).drop_last() =~= dec_digits(n / 10));
            assert(dec_digits(n).last() == digit_char(n % 10));
        }
        assert(digit_val(digit_char(n % 10)) == n % 10);
        vstd::arithmetic::div_mod::lemma_fundamental_div_mod(n as int, 10);
    }
}

proof fn lemma_pad2_value(n: nat)
    ensures
        dec_value(pad2(n)) == n,
    decreases n,
{
    lemma_dec_value_of_digits(n);
    if n < 10 {
        assert(dec_value(seq!['0']) == dec_value(Seq::<char>::empty()) * 10 + digit_val('0')) by {
            assert(seq!['0'].drop_last() =~= Seq::<char>::empty());
            assert(seq!['0'].last() == '0');
        }
        assert(dec_value(pad2(n)) == dec_value(seq!['0']) * 10 + digit_val(digit_char(n))) by {
            assert(pad2(n).drop_last() =~= seq!['0']);
            assert(pad2(n).last() == digit_char(n));
        }
        assert(digit_val(digit_char(n)) == n);
    }
}

proof fn lemma_candidate_injective(base: Seq<char>, m1: nat, m2: nat)
    requires
        candidate_name(base, m1) == candidate_name(base, m2),
    ensures
        m1 == m2,
{
    assert(candidate_name(base, m1).len() == base.len() + pad2(m1).len());
    assert(candidate_name(base, m2).len() == base.len() + pad2(m2).len());
    assert(pad2(m1).len() == pad2(m2).len());
    assert(pad2(m1) =~= candidate_name(base, m1).subrange(
        base.len() as int,
        candidate_name(base, m1).len() as int,
    ));
    assert(pad2(m2) =~= candidate_name(base, m2).subrange(
        base.len() as int,
        candidate_name(base, m2).len() as int,
    ));
    lemma_pad2_value(m1);
    lemma_pad2_value(m2);
}

proof fn lemma_remove_keeps_contains(pool: Seq<Seq<char>>, i: int, x: Seq<char>)
    requires
        0 <= i < pool.len(),
        pool.contains(x),
        x != pool[i],
    ensures
        pool.remove(i).contains(x),
{
    let j = choose|j: int| 0 <= j < pool.len() && pool[j] == x;
    if j < i {
        assert(pool.remove(i)[j] == x);
    } else {
        assert(pool.remove(i)[j - 1] == x);
    }
}

proof fn lemma_not_all_blocked(base: Seq<char>, m: nat, pool: Seq<Seq<char>>)
    ensures
        exists|k: nat|
            m <= k < m + pool.len() + 1 && !pool.contains(candidate_name(base, k)),
    decreases pool.len(),
{
    if pool.contains(candidate_name(base, m)) {
        let i = choose|i: int| 0 <= i < pool.len() && pool[i] == candidate_name(base, m);
        let pool2 = pool.remove(i);
        lemma_not_all_blocked(base, m + 1, pool2);
        let k = choose|k: nat|
            m + 1 <= k < m + 1 + pool2.len() + 1 && !pool2.contains(candidate_name(base, k));
        assert(!pool.contains(candidate_name(base, k))) by {
            if pool.contains(candidate_name(base, k)) {
                if candidate_name(base, k) == pool[i] {
                    lemma_candidate_injective(base, k, m);
                } else {
                    lemma_remove_keeps_contains(pool, i, candidate_name(base, k));
                }
                assert(false);
            }
        }
        assert(m <= k < m + pool.len() + 1);
    } else {
        assert(m <= m < m + pool.len() + 1 && !pool.contains(candidate_name(base, m)));
    }
}

proof fn lemma_first_free_found(base: Seq<char>, m: nat, pool: Seq<Seq<char>>, fuel: nat)
    requires
        exists|k: nat| m <= k < m + fuel && !pool.contains(candidate_name(base, k)),
    ensures
        m <= first_free_from(base, m, pool, fuel) < m + fuel,
        !pool.contains(candidate_name(base, first_free_from(base, m, pool, fuel))),
        forall|j: nat|
            m <= j < first_free_from(base, m, pool, fuel) ==> pool.contains(
                candidate_name(base, j),
            ),
    decreases fuel,
{
    let k0 = choose|k: nat| m <= k < m + fuel && !pool.contains(candidate_name(base, k));
    assert(fuel > 0);
    if pool.contains(candidate_name(base, m)) {
        assert(k0 != m);
        assert(m + 1 <= k0 < m + 1 + (fuel - 1));
        lemma_first_free_found(base, m + 1, pool, (fuel - 1) as nat);
    }
}

/// The nickname issued for a multi-email contact is never one already in
/// the pool, and extending a duplicate-free pool with it keeps the pool
/// duplicate-free — one generation batch never repeats a nickname.
pub proof fn lemma_generated_nickname_fresh(name: Seq<char>, count: nat, pool: Seq<Seq<char>>)
    requires
        count > 1,
    ensures
        !pool.contains(gen_nickname(name, count, pool)),
        pool.no_duplicates() ==> pool.push(gen_nickname(name, count, pool)).no_duplicates(),
{
    let base = gen_base(name, pool);
    let counter = gen_counter(name, pool);
    lemma_not_all_blocked(base, counter + 1, pool);
    lemma_first_free_found(base, counter + 1, pool, pool.len() + 1);
    let r = gen_nickname(name, count, pool);
    if pool.no_duplicates() {
        assert forall|i: int, j: int|
            0 <= i < pool.push(r).len() && 0 <= j < pool.push(r).len() && i != j implies pool.push(
            r,
        )[i] != pool.push(r)[j] by {
            if i < pool.len() && j < pool.len() {
                assert(pool[i] == pool.push(r)[i] && pool[j] == pool.push(r)[j]);
            } else if i < pool.len() {
                assert(pool.contains(pool[i]));
            } else if j < pool.len() {
                assert(pool.contains(pool[j]));
            }
        }
    }
}

fn push_dec_digits(out: &mut String, n: u32)
    ensures
        final(out)@ == old(out)@ + dec_digits(n as nat),
    decreases n,
{
    if n < 10 {
        out.push((48 + n as u8) as char);
        proof {
            assert(old(out)@ + dec_digits(n as nat) =~= old(out)@.push(digit_char(n as nat)));
        }
    } else {
        push_dec_digits(out, n / 10);
        out.push((48 + (n % 10) as u8) as char);
        proof {
            assert(old(out)@ + dec_digits(n as nat) =~= (old(out)@ + dec_digits(
                n as nat / 10,
            )).push(digit_char(n as nat % 10)));
        }
    }
}

fn make_candidate(base: &String, m: u32) -> (r: String)
    ensures
        r@ == candidate_name(base@, m as nat),
{
    let mut r = base.clone();
    if m < 10 {
        r.push('0');
    }
    push_dec_digits(&mut r, m);
    proof {
        assert(r@ =~= candidate_name(base@, m as nat));
    }
    r
}

/// Generates a nickname for a contact whose display name is `name` and
/// which carries `email_count` email addresses, against the pool of
/// nicknames already issued in this batch; the result is appended to the
/// pool. With a single email the base string is returned as it is, even
/// when the pool holds numbered variants.
pub fn generate_nickname(name: &str, email_count: usize, existing_nicknames: &mut Vec<String>) -> (r:
    String)
    requires
        gen_counter(name@, old(existing_nicknames).deep_view()) + old(
            existing_nicknames,
        )@.len() + 2 <= 0xFFFF_FFFF,
    ensures
        r@ == gen_nickname(name@, email_count as nat, old(existing_nicknames).deep_view()),
        final(existing_nicknames).deep_view() == old(existing_nicknames).deep_view().push(r@),
{
    let ghost pool = old(existing_nicknames).deep_view();
    let base_nickname: String;
    let counter: u32;
    if existing_nicknames.len() > 0 {
        let (b, c) = split_string_and_number(existing_nicknames[0].as_str());
        base_nickname = b;
        counter = c;
    } else {
        base_nickname = last_name_part(name);
        counter = 0;
    }
    proof {
        assert(base_nickname@ == gen_base(name@, pool));
        assert(counter as nat == gen_counter(name@, pool));
    }
    if email_count > 1 {
        let ghost fuel0: nat = pool.len() + 1;
        let ghost target = first_free_from(base_nickname@, counter as nat + 1, pool, fuel0);
        proof {
            lemma_not_all_blocked(base_nickname@, counter as nat + 1, pool);
            lemma_first_free_found(base_nickname@, counter as nat + 1, pool, fuel0);
        }
        let mut c: u32 = counter + 1;
        let mut nickname = make_candidate(&base_nickname, c);
        let mut taken = vec_contains_string(existing_nicknames, &nickname);
        while taken
            invariant
                existing_nicknames.deep_view() == pool,
                fuel0 == pool.len() + 1,
                counter as nat + pool.len() + 2 <= 0xFFFF_FFFF,
                counter as nat + 1 <= c as nat <= target,
                nickname@ == candidate_name(base_nickname@, c as nat),
                taken == pool.contains(candidate_name(base_nickname@, c as nat)),
                target == first_free_from(
                    base_nickname@,
                    c as nat,
                    pool,
                    (fuel0 - (c - counter - 1)) as nat,
                ),
                target < counter as nat + 1 + fuel0,
                !pool.contains(candidate_name(base_nickname@, target)),
            decreases target - c,
        {
            proof {
                assert((c as nat) < target);
                assert(target <= counter as nat + pool.len() + 1);
                assert((c as nat) + 1 <= 0xFFFF_FFFF);
            }
            c = c + 1;
            nickname = make_candidate(&base_nickname, c);
            taken = vec_contains_string(existing_nicknames, &nickname);
        }
        existing_nicknames.push(nickname.clone());
        proof {
            assert(c as nat == target);
            assert(final(existing_nicknames).deep_view() =~= pool.push(nickname@));
        }
        nickname
    } else {
        existing_nicknames.push(base_nickname.clone());
        proof {
            assert(final(existing_nicknames).deep_view() =~= pool.push(base_nickname@));
        }
        base_nickname
    }
}

} // verus!
