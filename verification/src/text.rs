//! Character-sequence utilities used throughout the compiler.
//!
//! Executable helpers work on `Vec<char>` and `String`; their contracts are stated
//! over `Seq<char>` by the spec functions defined here.

use vstd::prelude::*;

verus! {

// ---------------------------------------------------------------------------
// Specifications
// ---------------------------------------------------------------------------

/// `pat` occurs in `s` starting at position `i`.
pub open spec fn occurs_at(s: Seq<char>, pat: Seq<char>, i: int) -> bool {
    0 <= i && i + pat.len() <= s.len() && s.subrange(i, i + pat.len()) == pat
}

pub open spec fn has_prefix(s: Seq<char>, pat: Seq<char>) -> bool {
    occurs_at(s, pat, 0)
}

pub open spec fn has_suffix(s: Seq<char>, pat: Seq<char>) -> bool {
    pat.len() <= s.len() && s.subrange(s.len() - pat.len(), s.len() as int) == pat
}

pub open spec fn contains_seq(s: Seq<char>, pat: Seq<char>) -> bool {
    exists|i: int| occurs_at(s, pat, i)
}

pub open spec fn contains_char(s: Seq<char>, c: char) -> bool {
    exists|i: int| 0 <= i < s.len() && s[i] == c
}

/// Every non-overlapping occurrence of `pat` (scanning left to right) replaced by `rep`.
pub open spec fn replace_all(s: Seq<char>, pat: Seq<char>, rep: Seq<char>) -> Seq<char>
    decreases s.len(),
{
    if pat.len() == 0 || s.len() == 0 {
        s
    } else if occurs_at(s, pat, 0) {
        rep + replace_all(s.subrange(pat.len() as int, s.len() as int), pat, rep)
    } else {
        seq![s[0]] + replace_all(s.drop_first(), pat, rep)
    }
}

/// The first occurrence of `pat` replaced by `rep`.
pub open spec fn replace_first(s: Seq<char>, pat: Seq<char>, rep: Seq<char>) -> Seq<char>
    decreases s.len(),
{
    if pat.len() == 0 || s.len() == 0 {
        s
    } else if occurs_at(s, pat, 0) {
        rep + s.subrange(pat.len() as int, s.len() as int)
    } else {
        seq![s[0]] + replace_first(s.drop_first(), pat, rep)
    }
}

/// Number of non-overlapping occurrences of `pat` in `s`.
pub open spec fn count_occurrences(s: Seq<char>, pat: Seq<char>) -> nat
    decreases s.len(),
{
    if pat.len() == 0 || s.len() == 0 {
        0
    } else if occurs_at(s, pat, 0) {
        1 + count_occurrences(s.subrange(pat.len() as int, s.len() as int), pat)
    } else {
        count_occurrences(s.drop_first(), pat)
    }
}

/// Leading copies of `c` removed.
pub open spec fn trim_start_char(s: Seq<char>, c: char) -> Seq<char>
    decreases s.len(),
{
    if s.len() > 0 && s[0] == c {
        trim_start_char(s.drop_first(), c)
    } else {
        s
    }
}

/// Trailing copies of `c` removed.
pub open spec fn trim_end_char(s: Seq<char>, c: char) -> Seq<char>
    decreases s.len(),
{
    if s.len() > 0 && s.last() == c {
        trim_end_char(s.drop_last(), c)
    } else {
        s
    }
}

/// Leading and trailing copies of `c` removed.
pub open spec fn trim_char(s: Seq<char>, c: char) -> Seq<char> {
    trim_end_char(trim_start_char(s, c), c)
}

pub open spec fn upper_char(c: char) -> char {
    if 'a' <= c && c <= 'z' {
        ((c as u32) - 32) as char
    } else {
        c
    }
}

pub open spec fn is_upper_char(c: char) -> bool {
    'A' <= c && c <= 'Z'
}

pub open spec fn is_digit_char(c: char) -> bool {
    '0' <= c && c <= '9'
}

pub open spec fn is_alnum_char(c: char) -> bool {
    ('a' <= c && c <= 'z') || ('A' <= c && c <= 'Z') || ('0' <= c && c <= '9')
}

/// ASCII letters mapped to upper case, other characters unchanged.
pub open spec fn to_upper(s: Seq<char>) -> Seq<char> {
    s.map_values(|c: char| upper_char(c))
}

/// `parts` joined with `sep` between consecutive elements.
pub open spec fn join(parts: Seq<Seq<char>>, sep: Seq<char>) -> Seq<char>
    decreases parts.len(),
{
    if parts.len() == 0 {
        seq![]
    } else if parts.len() == 1 {
        parts[0]
    } else {
        join(parts.drop_last(), sep) + sep + parts.last()
    }
}

/// Decimal digits of a natural number.
pub open spec fn nat_digits(n: nat) -> Seq<char>
    decreases n,
{
    if n < 10 {
        seq![digit_char(n)]
    } else {
        nat_digits(n / 10) + seq![digit_char(n % 10)]
    }
}

pub open spec fn digit_char(d: nat) -> char {
    if d == 0 { '0' } else if d == 1 { '1' } else if d == 2 { '2' } else if d == 3 { '3' }
    else if d == 4 { '4' } else if d == 5 { '5' } else if d == 6 { '6' } else if d == 7 { '7' }
    else if d == 8 { '8' } else { '9' }
}

/// Decimal text of an integer, with a leading `-` for negative values.
pub open spec fn int_text(i: int) -> Seq<char> {
    if i < 0 {
        seq!['-'] + nat_digits((-i) as nat)
    } else {
        nat_digits(i as nat)
    }
}

pub open spec fn digit_value(c: char) -> int {
    (c as u32) as int - ('0' as u32) as int
}

/// Value of a string of decimal digits (most significant first).
pub open spec fn digits_value(s: Seq<char>) -> int
    decreases s.len(),
{
    if s.len() == 0 {
        0
    } else {
        digits_value(s.drop_last()) * 10 + digit_value(s.last())
    }
}

pub open spec fn all_digits(s: Seq<char>) -> bool {
    forall|i: int| 0 <= i < s.len() ==> is_digit_char(#[trigger] s[i])
}

/// The integer a decimal literal denotes (optional leading `+` or `-`), when it
/// fits in an `i64`.
pub open spec fn parse_int(s: Seq<char>) -> Option<i64> {
    let v = signed_value(s);
    if int_body(s).len() > 0 && all_digits(int_body(s)) && i64::MIN <= v <= i64::MAX {
        Some(v as i64)
    } else {
        None
    }
}

/// The digits of a decimal literal after an optional sign.
pub open spec fn int_body(s: Seq<char>) -> Seq<char> {
    if s.len() > 0 && (s[0] == '-' || s[0] == '+') { s.drop_first() } else { s }
}

pub open spec fn signed_value(s: Seq<char>) -> int {
    if s.len() > 0 && s[0] == '-' { -digits_value(int_body(s)) } else { digits_value(int_body(s)) }
}

// ---------------------------------------------------------------------------
// Lemmas
// ---------------------------------------------------------------------------

pub proof fn lemma_join_push(parts: Seq<Seq<char>>, sep: Seq<char>, p: Seq<char>)
    ensures
        join(parts.push(p), sep) == if parts.len() == 0 { p } else { join(parts, sep) + sep + p },
{
    assert(parts.push(p).drop_last() =~= parts);
}

proof fn lemma_digits_value_bound(s: Seq<char>)
    requires
        all_digits(s),
    ensures
        0 <= digits_value(s),
        digits_value(s) < pow10(s.len()),
    decreases s.len(),
{
    if s.len() > 0 {
        assert(all_digits(s.drop_last())) by {
            assert forall|i: int| 0 <= i < s.drop_last().len() implies is_digit_char(
                #[trigger] s.drop_last()[i],
            ) by {
                assert(s.drop_last()[i] == s[i]);
            }
        }
        lemma_digits_value_bound(s.drop_last());
        assert(is_digit_char(s[s.len() - 1]));
        assert(pow10(s.len()) == 10 * pow10((s.len() - 1) as nat));
    }
}

pub open spec fn pow10(n: nat) -> int
    decreases n,
{
    if n == 0 { 1 } else { 10 * pow10((n - 1) as nat) }
}

// ---------------------------------------------------------------------------
// Executable helpers
// ---------------------------------------------------------------------------

/// Append a character to a `String` (std's `String::push`, whose effect is to add
/// the character at the end).
#[verifier::external_body]
pub fn push_char(s: &mut String, c: char)
    ensures
        final(s)@ == old(s)@.push(c),
{
    s.push(c);
}

/// The characters of a string slice.
pub fn chars_of(s: &str) -> (r: Vec<char>)
    ensures
        r@ == s@,
{
    let n = s.unicode_len();
    let mut r: Vec<char> = Vec::new();
    let mut i: usize = 0;
    while i < n
        invariant
            n == s@.len(),
            i <= n,
            r@ == s@.subrange(0, i as int),
        decreases n - i,
    {
        let c = s.get_char(i);
        r.push(c);
        i = i + 1;
        assert(r@ =~= s@.subrange(0, i as int));
    }
    assert(r@ =~= s@);
    r
}

/// A `String` holding the given characters.
pub fn string_of(v: &Vec<char>) -> (r: String)
    ensures
        r@ == v@,
{
    let mut r = String::new();
    let mut i: usize = 0;
    while i < v.len()
        invariant
            i <= v.len(),
            r@ == v@.subrange(0, i as int),
        decreases v.len() - i,
    {
        push_char(&mut r, v[i]);
        i = i + 1;
        assert(r@ =~= v@.subrange(0, i as int));
    }
    assert(r@ =~= v@);
    r
}

/// Append all characters of `b` to `a`.
pub fn extend_chars(a: &mut Vec<char>, b: &Vec<char>)
    ensures
        final(a)@ == old(a)@ + b@,
{
    let mut i: usize = 0;
    let ghost a0 = a@;
    while i < b.len()
        invariant
            i <= b.len(),
            a@ == a0 + b@.subrange(0, i as int),
        decreases b.len() - i,
    {
        a.push(b[i]);
        i = i + 1;
        assert(a@ =~= a0 + b@.subrange(0, i as int));
    }
    assert(b@.subrange(0, b.len() as int) =~= b@);
}

/// Append the characters of a string slice to `a`.
pub fn extend_str(a: &mut Vec<char>, b: &str)
    ensures
        final(a)@ == old(a)@ + b@,
{
    let bc = chars_of(b);
    extend_chars(a, &bc);
}

/// Concatenation of two string slices.
pub fn concat2(a: &str, b: &str) -> (r: String)
    ensures
        r@ == a@ + b@,
{
    let mut v = chars_of(a);
    extend_str(&mut v, b);
    string_of(&v)
}

/// Equality of the characters of two slices.
pub fn chars_eq(a: &Vec<char>, b: &Vec<char>) -> (r: bool)
    ensures
        r == (a@ == b@),
{
    if a.len() != b.len() {
        return false;
    }
    let mut i: usize = 0;
    while i < a.len()
        invariant
            a.len() == b.len(),
            i <= a.len(),
            a@.subrange(0, i as int) == b@.subrange(0, i as int),
        decreases a.len() - i,
    {
        if a[i] != b[i] {
            assert(a@[i as int] != b@[i as int]);
            return false;
        }
        i = i + 1;
        assert(a@.subrange(0, i as int) =~= a@.subrange(0, (i - 1) as int).push(a@[i - 1]));
        assert(b@.subrange(0, i as int) =~= b@.subrange(0, (i - 1) as int).push(b@[i - 1]));
    }
    assert(a@ =~= a@.subrange(0, i as int));
    assert(b@ =~= b@.subrange(0, i as int));
    true
}

/// Whether two string slices hold the same characters.
pub fn str_eq(a: &str, b: &str) -> (r: bool)
    ensures
        r == (a@ == b@),
{
    let ac = chars_of(a);
    let bc = chars_of(b);
    chars_eq(&ac, &bc)
}

/// Whether `pat` occurs in `s` at position `i`.
pub fn occurs_at_exec(s: &Vec<char>, pat: &Vec<char>, i: usize) -> (r: bool)
    ensures
        r == occurs_at(s@, pat@, i as int),
{
    if i > s.len() || pat.len() > s.len() - i {
        return false;
    }
    let mut j: usize = 0;
    while j < pat.len()
        invariant
            i + pat.len() <= s.len(),
            j <= pat.len(),
            s@.subrange(i as int, i + j) == pat@.subrange(0, j as int),
        decreases pat.len() - j,
    {
        if s[i + j] != pat[j] {
            assert(s@.subrange(i as int, i + pat.len())[j as int] != pat@[j as int]);
            return false;
        }
        j = j + 1;
        assert(s@.subrange(i as int, i + j) =~= s@.subrange(i as int, i + j - 1).push(s@[i + j - 1]));
        assert(pat@.subrange(0, j as int) =~= pat@.subrange(0, j - 1).push(pat@[j - 1]));
    }
    assert(pat@.subrange(0, j as int) =~= pat@);
    true
}

pub fn starts_with_str(s: &str, pat: &str) -> (r: bool)
    ensures
        r == has_prefix(s@, pat@),
{
    let sc = chars_of(s);
    let pc = chars_of(pat);
    occurs_at_exec(&sc, &pc, 0)
}

pub fn ends_with_str(s: &str, pat: &str) -> (r: bool)
    ensures
        r == has_suffix(s@, pat@),
{
    let sc = chars_of(s);
    let pc = chars_of(pat);
    if pc.len() > sc.len() {
        return false;
    }
    let r = occurs_at_exec(&sc, &pc, sc.len() - pc.len());
    r
}

/// Whether `pat` occurs anywhere in `s`.
pub fn contains_exec(s: &Vec<char>, pat: &Vec<char>) -> (r: bool)
    ensures
        r == contains_seq(s@, pat@),
{
    let mut i: usize = 0;
    while i < s.len()
        invariant
            i <= s.len(),
            forall|k: int| 0 <= k < i ==> !occurs_at(s@, pat@, k),
        decreases s.len() - i,
    {
        if occurs_at_exec(s, pat, i) {
            return true;
        }
        i = i + 1;
    }
    if occurs_at_exec(s, pat, i) {
        return true;
    }
    assert forall|k: int| !occurs_at(s@, pat@, k) by {
        if 0 <= k < i {
        } else if k > i {
        }
    }
    false
}

pub fn contains_str(s: &str, pat: &str) -> (r: bool)
    ensures
        r == contains_seq(s@, pat@),
{
    let sc = chars_of(s);
    let pc = chars_of(pat);
    contains_exec(&sc, &pc)
}

pub fn contains_char_exec(s: &Vec<char>, c: char) -> (r: bool)
    ensures
        r == contains_char(s@, c),
{
    let mut i: usize = 0;
    while i < s.len()
        invariant
            i <= s.len(),
            forall|k: int| 0 <= k < i ==> s@[k] != c,
        decreases s.len() - i,
    {
        if s[i] == c {
            return true;
        }
        i = i + 1;
    }
    false
}

proof fn lemma_replace_all_split(s: Seq<char>, pat: Seq<char>, rep: Seq<char>, i: int)
    requires
        pat.len() > 0,
        0 <= i < s.len(),
    ensures
        occurs_at(s.subrange(i, s.len() as int), pat, 0) ==> replace_all(
            s.subrange(i, s.len() as int),
            pat,
            rep,
        ) == rep + replace_all(s.subrange(i + pat.len(), s.len() as int), pat, rep),
        !occurs_at(s.subrange(i, s.len() as int), pat, 0) ==> replace_all(
            s.subrange(i, s.len() as int),
            pat,
            rep,
        ) == seq![s[i]] + replace_all(s.subrange(i + 1, s.len() as int), pat, rep),
{
    let t = s.subrange(i, s.len() as int);
    if occurs_at(t, pat, 0) {
        assert(t.subrange(pat.len() as int, t.len() as int) =~= s.subrange(i + pat.len(), s.len() as int));
    }
    assert(t.drop_first() =~= s.subrange(i + 1, s.len() as int));
}

/// Every non-overlapping occurrence of `pat` replaced by `rep`.
pub fn replace_all_exec(s: &Vec<char>, pat: &Vec<char>, rep: &Vec<char>) -> (r: Vec<char>)
    requires
        pat.len() > 0,
    ensures
        r@ == replace_all(s@, pat@, rep@),
{
    let mut out: Vec<char> = Vec::new();
    let mut i: usize = 0;
    assert(s@.subrange(0, s.len() as int) =~= s@);
    while i < s.len()
        invariant
            pat.len() > 0,
            i <= s.len(),
            out@ + replace_all(s@.subrange(i as int, s.len() as int), pat@, rep@) == replace_all(
                s@,
                pat@,
                rep@,
            ),
        decreases s.len() - i,
    {
        proof {
            lemma_replace_all_split(s@, pat@, rep@, i as int);
        }
        let hit = occurs_at_exec(s, pat, i);
        proof {
            let t = s@.subrange(i as int, s.len() as int);
            if hit {
                assert(t.subrange(0, pat.len() as int) =~= s@.subrange(i as int, i + pat.len()));
            } else if i + pat.len() <= s.len() {
                assert(t.subrange(0, pat.len() as int) =~= s@.subrange(i as int, i + pat.len()));
            }
        }
        if hit {
            let ghost old_out = out@;
            extend_chars(&mut out, rep);
            assert(out@ + replace_all(s@.subrange(i + pat.len(), s.len() as int), pat@, rep@)
                =~= old_out + (rep@ + replace_all(s@.subrange(i + pat.len(), s.len() as int), pat@, rep@)));
            i = i + pat.len();
        } else {
            let ghost old_out = out@;
            out.push(s[i]);
            assert(out@ + replace_all(s@.subrange(i + 1, s.len() as int), pat@, rep@)
                =~= old_out + (seq![s@[i as int]] + replace_all(s@.subrange(i + 1, s.len() as int), pat@, rep@)));
            i = i + 1;
        }
    }
    assert(replace_all(s@.subrange(i as int, s.len() as int), pat@, rep@) =~= seq![]) by {
        assert(s@.subrange(i as int, s.len() as int).len() == 0);
    }
    assert(out@ + seq![] =~= out@);
    out
}

/// `s` with every occurrence of `pat` replaced by `rep`.
pub fn replace_str(s: &str, pat: &str, rep: &str) -> (r: String)
    requires
        pat@.len() > 0,
    ensures
        r@ == replace_all(s@, pat@, rep@),
{
    let sc = chars_of(s);
    let pc = chars_of(pat);
    let rc = chars_of(rep);
    let out = replace_all_exec(&sc, &pc, &rc);
    string_of(&out)
}

/// `s` with the first occurrence of `pat` replaced by `rep`.
pub fn replace_first_str(s: &str, pat: &str, rep: &str) -> (r: String)
    requires
        pat@.len() > 0,
    ensures
        r@ == replace_first(s@, pat@, rep@),
{
    let sc = chars_of(s);
    let pc = chars_of(pat);
    let rc = chars_of(rep);
    let out = replace_first_exec(&sc, &pc, &rc);
    string_of(&out)
}

/// Number of non-overlapping occurrences of `pat` in `s`.
pub fn count_str(s: &str, pat: &str) -> (r: usize)
    requires
        pat@.len() > 0,
    ensures
        r == count_occurrences(s@, pat@),
{
    let sc = chars_of(s);
    let pc = chars_of(pat);
    count_exec(&sc, &pc)
}

proof fn lemma_replace_first_split(s: Seq<char>, pat: Seq<char>, rep: Seq<char>, i: int)
    requires
        pat.len() > 0,
        0 <= i < s.len(),
    ensures
        occurs_at(s.subrange(i, s.len() as int), pat, 0) ==> replace_first(
            s.subrange(i, s.len() as int),
            pat,
            rep,
        ) == rep + s.subrange(i + pat.len(), s.len() as int),
        !occurs_at(s.subrange(i, s.len() as int), pat, 0) ==> replace_first(
            s.subrange(i, s.len() as int),
            pat,
            rep,
        ) == seq![s[i]] + replace_first(s.subrange(i + 1, s.len() as int), pat, rep),
{
    let t = s.subrange(i, s.len() as int);
    if occurs_at(t, pat, 0) {
        assert(t.subrange(pat.len() as int, t.len() as int) =~= s.subrange(i + pat.len(), s.len() as int));
    }
    assert(t.drop_first() =~= s.subrange(i + 1, s.len() as int));
}

/// The first occurrence of `pat` replaced by `rep`.
pub fn replace_first_exec(s: &Vec<char>, pat: &Vec<char>, rep: &Vec<char>) -> (r: Vec<char>)
    requires
        pat.len() > 0,
    ensures
        r@ == replace_first(s@, pat@, rep@),
{
    let mut out: Vec<char> = Vec::new();
    let mut i: usize = 0;
    assert(s@.subrange(0, s.len() as int) =~= s@);
    while i < s.len()
        invariant
            pat.len() > 0,
            i <= s.len(),
            out@ + replace_first(s@.subrange(i as int, s.len() as int), pat@, rep@)
                == replace_first(s@, pat@, rep@),
        decreases s.len() - i,
    {
        proof {
            lemma_replace_first_split(s@, pat@, rep@, i as int);
        }
        let hit = occurs_at_exec(s, pat, i);
        proof {
            let t = s@.subrange(i as int, s.len() as int);
            if i + pat.len() <= s.len() {
                assert(t.subrange(0, pat.len() as int) =~= s@.subrange(i as int, i + pat.len()));
            }
        }
        if hit {
            let ghost old_out = out@;
            extend_chars(&mut out, rep);
            let mut k: usize = i + pat.len();
            let ghost mid = out@;
            while k < s.len()
                invariant
                    i + pat.len() <= k <= s.len(),
                    out@ == mid + s@.subrange(i + pat.len(), k as int),
                decreases s.len() - k,
            {
                out.push(s[k]);
                k = k + 1;
                assert(out@ =~= mid + s@.subrange(i + pat.len(), k as int));
            }
            assert(out@ =~= old_out + (rep@ + s@.subrange(i + pat.len(), s.len() as int)));
            return out;
        } else {
            let ghost old_out = out@;
            out.push(s[i]);
            assert(out@ + replace_first(s@.subrange(i + 1, s.len() as int), pat@, rep@)
                =~= old_out + (seq![s@[i as int]] + replace_first(s@.subrange(i + 1, s.len() as int), pat@, rep@)));
            i = i + 1;
        }
    }
    assert(out@ + seq![] =~= out@);
    out
}

proof fn lemma_count_split(s: Seq<char>, pat: Seq<char>, i: int)
    requires
        pat.len() > 0,
        0 <= i < s.len(),
    ensures
        occurs_at(s.subrange(i, s.len() as int), pat, 0) ==> count_occurrences(
            s.subrange(i, s.len() as int),
            pat,
        ) == 1 + count_occurrences(s.subrange(i + pat.len(), s.len() as int), pat),
        !occurs_at(s.subrange(i, s.len() as int), pat, 0) ==> count_occurrences(
            s.subrange(i, s.len() as int),
            pat,
        ) == count_occurrences(s.subrange(i + 1, s.len() as int), pat),
{
    let t = s.subrange(i, s.len() as int);
    if occurs_at(t, pat, 0) {
        assert(t.subrange(pat.len() as int, t.len() as int) =~= s.subrange(i + pat.len(), s.len() as int));
    }
    assert(t.drop_first() =~= s.subrange(i + 1, s.len() as int));
}

/// Number of non-overlapping occurrences of `pat` in `s`.
pub fn count_exec(s: &Vec<char>, pat: &Vec<char>) -> (r: usize)
    requires
        pat.len() > 0,
    ensures
        r == count_occurrences(s@, pat@),
{
    let mut n: usize = 0;
    let mut i: usize = 0;
    assert(s@.subrange(0, s.len() as int) =~= s@);
    while i < s.len()
        invariant
            pat.len() > 0,
            i <= s.len(),
            n <= i,
            n + count_occurrences(s@.subrange(i as int, s.len() as int), pat@) == count_occurrences(
                s@,
                pat@,
            ),
        decreases s.len() - i,
    {
        proof {
            lemma_count_split(s@, pat@, i as int);
        }
        let hit = occurs_at_exec(s, pat, i);
        proof {
            let t = s@.subrange(i as int, s.len() as int);
            if i + pat.len() <= s.len() {
                assert(t.subrange(0, pat.len() as int) =~= s@.subrange(i as int, i + pat.len()));
            }
        }
        if hit {
            n = n + 1;
            i = i + pat.len();
        } else {
            i = i + 1;
        }
    }
    n
}

proof fn lemma_trim_start_step(s: Seq<char>, c: char, i: int)
    requires
        0 <= i < s.len(),
        s[i] == c,
    ensures
        trim_start_char(s.subrange(i, s.len() as int), c) == trim_start_char(
            s.subrange(i + 1, s.len() as int),
            c,
        ),
{
    assert(s.subrange(i, s.len() as int).drop_first() =~= s.subrange(i + 1, s.len() as int));
}

proof fn lemma_trim_end_step(s: Seq<char>, c: char, j: int)
    requires
        0 < j <= s.len(),
        s[j - 1] == c,
    ensures
        trim_end_char(s.subrange(0, j), c) == trim_end_char(s.subrange(0, j - 1), c),
{
    assert(s.subrange(0, j).drop_last() =~= s.subrange(0, j - 1));
}

/// `s` with leading and trailing copies of `c` removed.
pub fn trim_char_exec(s: &Vec<char>, c: char) -> (r: Vec<char>)
    ensures
        r@ == trim_char(s@, c),
{
    let mut i: usize = 0;
    assert(s@.subrange(0, s.len() as int) =~= s@);
    while i < s.len() && s[i] == c
        invariant
            i <= s.len(),
            trim_start_char(s@.subrange(i as int, s.len() as int), c) == trim_start_char(s@, c),
        decreases s.len() - i,
    {
        proof {
            lemma_trim_start_step(s@, c, i as int);
        }
        i = i + 1;
    }
    let ghost t = s@.subrange(i as int, s.len() as int);
    assert(trim_start_char(t, c) == t);
    let mut j: usize = s.len();
    assert(t.subrange(0, t.len() as int) =~= t);
    while j > i && s[j - 1] == c
        invariant
            i <= j <= s.len(),
            t == s@.subrange(i as int, s.len() as int),
            trim_end_char(s@.subrange(i as int, j as int), c) == trim_end_char(t, c),
        decreases j,
    {
        proof {
            assert(s@.subrange(i as int, j as int).drop_last() =~= s@.subrange(i as int, j - 1));
        }
        j = j - 1;
    }
    let mut out: Vec<char> = Vec::new();
    let mut k: usize = i;
    while k < j
        invariant
            i <= k <= j,
            j <= s.len(),
            out@ == s@.subrange(i as int, k as int),
        decreases j - k,
    {
        out.push(s[k]);
        k = k + 1;
        assert(out@ =~= s@.subrange(i as int, k as int));
    }
    out
}

/// `s` with leading and trailing copies of `c` removed.
pub fn trim_char_str(s: &str, c: char) -> (r: String)
    ensures
        r@ == trim_char(s@, c),
{
    let sc = chars_of(s);
    let t = trim_char_exec(&sc, c);
    string_of(&t)
}

/// ASCII letters of `s` mapped to upper case.
pub fn to_upper_exec(s: &str) -> (r: String)
    ensures
        r@ == to_upper(s@),
{
    let sc = chars_of(s);
    let mut out: Vec<char> = Vec::new();
    let mut i: usize = 0;
    while i < sc.len()
        invariant
            sc@ == s@,
            i <= sc.len(),
            out@ == to_upper(s@).subrange(0, i as int),
        decreases sc.len() - i,
    {
        let u = upper_char_exec(sc[i]);
        out.push(u);
        i = i + 1;
        assert(out@ =~= to_upper(s@).subrange(0, i as int));
    }
    assert(out@ =~= to_upper(s@));
    string_of(&out)
}

/// A character mapped to upper case when it is an ASCII letter.
pub fn upper_char_exec(c: char) -> (r: char)
    ensures
        r == upper_char(c),
{
    if 'a' <= c && c <= 'z' {
        let code: u32 = c as u32 - 32;
        char_from_ascii(code)
    } else {
        c
    }
}

fn char_from_ascii(code: u32) -> (c: char)
    requires
        65 <= code <= 90,
    ensures
        c == code as char,
{
    let b: u8 = code as u8;
    b as char
}

/// Whether the first character of `s` is an ASCII upper-case letter.
pub fn starts_upper(s: &str) -> (r: bool)
    ensures
        r == (s@.len() > 0 && is_upper_char(s@[0])),
{
    let sc = chars_of(s);
    sc.len() > 0 && 'A' <= sc[0] && sc[0] <= 'Z'
}

/// `parts` joined with `sep`.
pub fn join_strings(parts: &Vec<String>, sep: &str) -> (r: String)
    ensures
        r@ == join(parts@.map_values(|p: String| p@), sep@),
{
    let ghost views = parts@.map_values(|p: String| p@);
    let mut out: Vec<char> = Vec::new();
    let mut i: usize = 0;
    while i < parts.len()
        invariant
            i <= parts.len(),
            views == parts@.map_values(|p: String| p@),
            out@ == join(views.subrange(0, i as int), sep@),
        decreases parts.len() - i,
    {
        proof {
            lemma_join_push(views.subrange(0, i as int), sep@, views[i as int]);
            assert(views.subrange(0, i as int).push(views[i as int]) =~= views.subrange(0, i + 1));
        }
        if i > 0 {
            extend_str(&mut out, sep);
        }
        extend_str(&mut out, parts[i].as_str());
        i = i + 1;
    }
    assert(views.subrange(0, i as int) =~= views);
    string_of(&out)
}

/// Decimal text of an integer.
pub fn int_to_string(v: i64) -> (r: String)
    ensures
        r@ == int_text(v as int),
{
    let neg = v < 0;
    let n: u64 = if neg {
        if v == i64::MIN { 9223372036854775808u64 } else { (-v) as u64 }
    } else {
        v as u64
    };
    let tail = digits_of(n);
    let mut digits: Vec<char> = Vec::new();
    if neg {
        digits.push('-');
    }
    extend_chars(&mut digits, &tail);
    assert(digits@ =~= int_text(v as int));
    string_of(&digits)
}

/// Decimal text of a `usize`.
pub fn usize_to_string(v: usize) -> (r: String)
    ensures
        r@ == int_text(v as int),
{
    let tail = digits_of(v as u64);
    string_of(&tail)
}

/// Decimal digits of `n`.
fn digits_of(n0: u64) -> (r: Vec<char>)
    ensures
        r@ == nat_digits(n0 as nat),
{
    let mut n = n0;
    let ghost total: nat = n0 as nat;
    let mut tail: Vec<char> = Vec::new();
    if n == 0 {
        tail.push('0');
        assert(tail@ =~= nat_digits(total));
    } else {
        while n > 0
            invariant
                nat_digits(total) == (if n > 0 { nat_digits(n as nat) } else { seq![] }) + tail@,
            decreases n,
        {
            let d: u64 = n % 10;
            let c = digit_exec(d);
            let ghost old_tail = tail@;
            let ghost old_n = n as nat;
            let mut nt: Vec<char> = Vec::new();
            nt.push(c);
            extend_chars(&mut nt, &tail);
            tail = nt;
            n = n / 10;
            proof {
                assert(tail@ =~= seq![c] + old_tail);
                if old_n < 10 {
                    assert(nat_digits(old_n) == seq![digit_char(old_n)]);
                    assert(nat_digits(total) =~= seq![] + tail@);
                } else {
                    assert(nat_digits(old_n) == nat_digits(old_n / 10) + seq![digit_char(old_n % 10)]);
                    assert(nat_digits(total) =~= nat_digits(n as nat) + tail@);
                }
            }
        }
        assert(nat_digits(total) =~= tail@);
    }
    tail
}

fn digit_exec(d: u64) -> (c: char)
    requires
        d < 10,
    ensures
        c == digit_char(d as nat),
{
    if d == 0 { '0' } else if d == 1 { '1' } else if d == 2 { '2' } else if d == 3 { '3' }
    else if d == 4 { '4' } else if d == 5 { '5' } else if d == 6 { '6' } else if d == 7 { '7' }
    else if d == 8 { '8' } else { '9' }
}

/// The `i64` denoted by a decimal literal, if it is one and fits.
pub fn parse_int_exec(s: &str) -> (r: Option<i64>)
    ensures
        r == parse_int(s@),
{
    let sc = chars_of(s);
    let neg = sc.len() > 0 && sc[0] == '-';
    let start: usize = if sc.len() > 0 && (sc[0] == '-' || sc[0] == '+') { 1 } else { 0 };
    let ghost body = int_body(s@);
    assert(body =~= s@.subrange(start as int, s@.len() as int));
    if start >= sc.len() {
        return None;
    }
    let mut acc: i128 = 0;
    let mut i: usize = start;
    while i < sc.len()
        invariant
            sc@ == s@,
            start <= i <= sc.len(),
            body == s@.subrange(start as int, s@.len() as int),
            body == int_body(s@),
            neg == (s@.len() > 0 && s@[0] == '-'),
            all_digits(s@.subrange(start as int, i as int)),
            acc == digits_value(s@.subrange(start as int, i as int)),
            0 <= acc <= 9223372036854775808,
        decreases sc.len() - i,
    {
        let c = sc[i];
        if !('0' <= c && c <= '9') {
            proof {
                assert(body[i - start] == c);
                assert(!is_digit_char(body[i - start]));
                assert(!all_digits(body));
                assert(!all_digits(int_body(s@)) || signed_value(s@) < i64::MIN || signed_value(s@) > i64::MAX);
                assert(parse_int(s@) == None::<i64>);
            }
            return None;
        }
        let d: i128 = (c as u32 - '0' as u32) as i128;
        let next = acc * 10 + d;
        proof {
            let pre = s@.subrange(start as int, i as int);
            let post = s@.subrange(start as int, i + 1);
            assert(post.drop_last() =~= pre);
            assert(post.last() == c);
            assert(all_digits(post)) by {
                assert forall|k: int| 0 <= k < post.len() implies is_digit_char(#[trigger] post[k]) by {
                    if k < pre.len() {
                        assert(post[k] == pre[k]);
                    }
                }
            }
        }
        if next > 9223372036854775808 {
            proof {
                let post = s@.subrange(start as int, i + 1);
                assert(digits_value(post) == digits_value(post.drop_last()) * 10 + digit_value(post.last()));
                assert(digit_value(post.last()) == d);
                assert(digits_value(post) == next);
                if all_digits(body) {
                    lemma_digits_monotone(body, (i + 1 - start) as nat);
                    assert(body.subrange(0, (i + 1 - start) as int) =~= post);
                    assert(digits_value(body) > 9223372036854775808);
                }
                assert(!all_digits(int_body(s@)) || signed_value(s@) < i64::MIN || signed_value(s@) > i64::MAX);
                assert(parse_int(s@) == None::<i64>);
            }
            return None;
        }
        acc = next;
        i = i + 1;
    }
    let v: i128 = if neg { -acc } else { acc };
    if v > 9223372036854775807 || v < -9223372036854775808 {
        return None;
    }
    Some(v as i64)
}

proof fn lemma_digits_monotone(s: Seq<char>, k: nat)
    requires
        k <= s.len(),
        all_digits(s),
    ensures
        digits_value(s.subrange(0, k as int)) <= digits_value(s),
    decreases s.len(),
{
    if k < s.len() {
        assert(all_digits(s.drop_last())) by {
            assert forall|i: int| 0 <= i < s.drop_last().len() implies is_digit_char(
                #[trigger] s.drop_last()[i],
            ) by {
                assert(s.drop_last()[i] == s[i]);
            }
        }
        lemma_digits_monotone(s.drop_last(), k);
        assert(s.drop_last().subrange(0, k as int) =~= s.subrange(0, k as int));
        lemma_digits_value_bound(s.drop_last());
        assert(is_digit_char(s.last()));
    } else {
        assert(s.subrange(0, k as int) =~= s);
    }
}

/// Concatenation of three string slices.
pub fn concat3(a: &str, b: &str, c: &str) -> (r: String)
    ensures
        r@ == a@ + b@ + c@,
{
    let mut v = chars_of(a);
    extend_str(&mut v, b);
    extend_str(&mut v, c);
    string_of(&v)
}

/// Concatenation of four string slices.
pub fn concat4(a: &str, b: &str, c: &str, d: &str) -> (r: String)
    ensures
        r@ == a@ + b@ + c@ + d@,
{
    let mut v = chars_of(a);
    extend_str(&mut v, b);
    extend_str(&mut v, c);
    extend_str(&mut v, d);
    string_of(&v)
}

/// Concatenation of five string slices.
pub fn concat5(a: &str, b: &str, c: &str, d: &str, e: &str) -> (r: String)
    ensures
        r@ == a@ + b@ + c@ + d@ + e@,
{
    let mut v = chars_of(a);
    extend_str(&mut v, b);
    extend_str(&mut v, c);
    extend_str(&mut v, d);
    extend_str(&mut v, e);
    string_of(&v)
}

/// Concatenation of a list of string slices.
pub fn concat_all(parts: &[&str]) -> (r: String)
    ensures
        r@ == concat_seq(parts@.map_values(|p: &str| p@)),
{
    let ghost views = parts@.map_values(|p: &str| p@);
    let mut v: Vec<char> = Vec::new();
    let mut i: usize = 0;
    while i < parts.len()
        invariant
            i <= parts.len(),
            views == parts@.map_values(|p: &str| p@),
            v@ == concat_seq(views.subrange(0, i as int)),
        decreases parts.len() - i,
    {
        extend_str(&mut v, parts[i]);
        proof {
            assert(views.subrange(0, i + 1).drop_last() =~= views.subrange(0, i as int));
        }
        i = i + 1;
    }
    assert(views.subrange(0, i as int) =~= views);
    string_of(&v)
}

/// Concatenation of a sequence of strings.
pub open spec fn concat_seq(parts: Seq<Seq<char>>) -> Seq<char>
    decreases parts.len(),
{
    if parts.len() == 0 {
        seq![]
    } else {
        concat_seq(parts.drop_last()) + parts.last()
    }
}

/// Lexicographic order of texts, by character code.
pub open spec fn text_lt(a: Seq<char>, b: Seq<char>) -> bool
    decreases a.len(),
{
    if b.len() == 0 {
        false
    } else if a.len() == 0 {
        true
    } else if a[0] != b[0] {
        (a[0] as int) < (b[0] as int)
    } else {
        text_lt(a.drop_first(), b.drop_first())
    }
}

/// Whether `a` comes before `b`.
pub fn text_less(a: &str, b: &str) -> (r: bool)
    ensures
        r == text_lt(a@, b@),
{
    let ac = chars_of(a);
    let bc = chars_of(b);
    let mut i: usize = 0;
    assert(a@.skip(0) =~= a@);
    assert(b@.skip(0) =~= b@);
    while i < ac.len() && i < bc.len() && ac[i] == bc[i]
        invariant
            ac@ == a@,
            bc@ == b@,
            i <= ac.len(),
            i <= bc.len(),
            text_lt(a@, b@) == text_lt(a@.skip(i as int), b@.skip(i as int)),
        decreases ac.len() - i,
    {
        proof {
            assert(a@.skip(i as int).drop_first() =~= a@.skip(i + 1));
            assert(b@.skip(i as int).drop_first() =~= b@.skip(i + 1));
        }
        i = i + 1;
    }
    if i == bc.len() {
        assert(b@.skip(i as int).len() == 0);
        false
    } else if i == ac.len() {
        assert(a@.skip(i as int).len() == 0);
        true
    } else {
        assert(a@.skip(i as int)[0] == ac@[i as int]);
        assert(b@.skip(i as int)[0] == bc@[i as int]);
        ac[i] < bc[i]
    }
}


/// No text comes before itself.
pub proof fn lemma_text_lt_irreflexive(a: Seq<char>)
    ensures
        !text_lt(a, a),
    decreases a.len(),
{
    if a.len() > 0 {
        lemma_text_lt_irreflexive(a.drop_first());
    }
}

/// The order of texts is transitive.
pub proof fn lemma_text_lt_transitive(a: Seq<char>, b: Seq<char>, c: Seq<char>)
    requires
        text_lt(a, b),
        text_lt(b, c),
    ensures
        text_lt(a, c),
    decreases a.len(),
{
    if a.len() > 0 && b.len() > 0 && c.len() > 0 && a[0] == b[0] && b[0] == c[0] {
        lemma_text_lt_transitive(a.drop_first(), b.drop_first(), c.drop_first());
    }
}

/// Of two different texts, one comes before the other.
pub proof fn lemma_text_lt_total(a: Seq<char>, b: Seq<char>)
    requires
        a != b,
    ensures
        text_lt(a, b) || text_lt(b, a),
    decreases a.len(),
{
    if a.len() > 0 && b.len() > 0 && a[0] == b[0] {
        if a.drop_first() == b.drop_first() {
            assert(a =~= seq![a[0]] + a.drop_first());
            assert(b =~= seq![b[0]] + b.drop_first());
        }
        lemma_text_lt_total(a.drop_first(), b.drop_first());
    } else if a.len() > 0 && b.len() > 0 {
        assert((a[0] as int) != (b[0] as int));
    } else if a.len() == 0 && b.len() == 0 {
        assert(a =~= b);
    }
}

/// A text that comes before another does not come after it.
pub proof fn lemma_text_lt_asymmetric(a: Seq<char>, b: Seq<char>)
    requires
        text_lt(a, b),
    ensures
        !text_lt(b, a),
    decreases a.len(),
{
    if a.len() > 0 && b.len() > 0 && a[0] == b[0] {
        lemma_text_lt_asymmetric(a.drop_first(), b.drop_first());
    }
}

pub(crate) proof fn lemma_nat_digits_len(n: nat)
    ensures
        nat_digits(n).len() >= 1,
        n >= 10 ==> nat_digits(n).len() >= 2,
    decreases n,
{
    if n >= 10 {
        lemma_nat_digits_len(n / 10);
    }
}

proof fn lemma_digit_char_injective(a: nat, b: nat)
    requires
        a < 10,
        b < 10,
        digit_char(a) == digit_char(b),
    ensures
        a == b,
{
}

/// Different numbers have different decimal digits.
pub proof fn lemma_nat_digits_injective(m: nat, n: nat)
    requires
        nat_digits(m) == nat_digits(n),
    ensures
        m == n,
    decreases m,
{
    lemma_nat_digits_len(m);
    lemma_nat_digits_len(n);
    if m < 10 && n < 10 {
        assert(nat_digits(m)[0] == digit_char(m));
        assert(nat_digits(n)[0] == digit_char(n));
        lemma_digit_char_injective(m, n);
    } else if m >= 10 && n >= 10 {
        let dm = nat_digits(m);
        let dn = nat_digits(n);
        assert(dm.last() == digit_char(m % 10));
        assert(dn.last() == digit_char(n % 10));
        lemma_digit_char_injective(m % 10, n % 10);
        assert(dm.drop_last() =~= nat_digits(m / 10));
        assert(dn.drop_last() =~= nat_digits(n / 10));
        lemma_nat_digits_injective(m / 10, n / 10);
        assert(m == (m / 10) * 10 + m % 10);
        assert(n == (n / 10) * 10 + n % 10);
    }
}
} // verus!
