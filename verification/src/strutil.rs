//! String helpers shared by the directory: ASCII lowercasing, lexicographic
//! comparison, and the address splitting used by subaddressing rules.

use vstd::prelude::*;

verus! {

/// ASCII lowercasing of a single character; every other character is kept.
pub open spec fn lower_char(c: char) -> char {
    match c {
        'A' => 'a',
        'B' => 'b',
        'C' => 'c',
        'D' => 'd',
        'E' => 'e',
        'F' => 'f',
        'G' => 'g',
        'H' => 'h',
        'I' => 'i',
        'J' => 'j',
        'K' => 'k',
        'L' => 'l',
        'M' => 'm',
        'N' => 'n',
        'O' => 'o',
        'P' => 'p',
        'Q' => 'q',
        'R' => 'r',
        'S' => 's',
        'T' => 't',
        'U' => 'u',
        'V' => 'v',
        'W' => 'w',
        'X' => 'x',
        'Y' => 'y',
        'Z' => 'z',
        _ => c,
    }
}

/// ASCII lowercasing of a whole string.
pub open spec fn lower(s: Seq<char>) -> Seq<char> {
    s.map_values(|c: char| lower_char(c))
}

/// A string is in stored form when lowercasing leaves it unchanged.
pub open spec fn is_lower(s: Seq<char>) -> bool {
    forall|i: int| 0 <= i < s.len() ==> lower_char(#[trigger] s[i]) == s[i]
}

pub proof fn lemma_lower_char_idempotent(c: char)
    ensures
        lower_char(lower_char(c)) == lower_char(c),
{
}

pub proof fn lemma_lower_is_lower(s: Seq<char>)
    ensures
        is_lower(lower(s)),
        is_lower(s) ==> lower(s) =~= s,
{
    assert forall|i: int| 0 <= i < lower(s).len() implies lower_char(
        #[trigger] lower(s)[i],
    ) == lower(s)[i] by {
        lemma_lower_char_idempotent(s[i]);
    }
}

/// Relies on `String::push`: appends one character at the end.
#[verifier::external_body]
pub(crate) fn push_char(s: &mut String, c: char)
    ensures
        final(s)@ == old(s)@.push(c),
{
    s.push(c);
}

fn lower_char_x(c: char) -> (r: char)
    ensures
        r == lower_char(c),
{
    match c {
        'A' => 'a',
        'B' => 'b',
        'C' => 'c',
        'D' => 'd',
        'E' => 'e',
        'F' => 'f',
        'G' => 'g',
        'H' => 'h',
        'I' => 'i',
        'J' => 'j',
        'K' => 'k',
        'L' => 'l',
        'M' => 'm',
        'N' => 'n',
        'O' => 'o',
        'P' => 'p',
        'Q' => 'q',
        'R' => 'r',
        'S' => 's',
        'T' => 't',
        'U' => 'u',
        'V' => 'v',
        'W' => 'w',
        'X' => 'x',
        'Y' => 'y',
        'Z' => 'z',
        _ => c,
    }
}

/// Lowercase a string, ASCII range only: the directory's case folding by
/// design, so that it can be verified rather than trusted.
pub fn to_lower(s: &str) -> (r: String)
    ensures
        r@ == lower(s@),
{
    let n = s.unicode_len();
    let mut r = String::new();
    let mut i: usize = 0;
    while i < n
        invariant
            n == s@.len(),
            0 <= i <= n,
            r@ =~= lower(s@.take(i as int)),
        decreases n - i,
    {
        let c = s.get_char(i);
        push_char(&mut r, lower_char_x(c));
        proof {
            assert(lower(s@.take(i + 1)) =~= lower(s@.take(i as int)).push(lower_char(s@[i as int])));
        }
        i = i + 1;
    }
    proof {
        assert(s@.take(n as int) =~= s@);
    }
    r
}

/// The views of a list of strings.
pub open spec fn str_seq_view(s: Seq<String>) -> Seq<Seq<char>> {
    s.map_values(|x: String| x@)
}

/// Elementwise equality of two string lists, over views.
pub fn str_vec_eq(a: &Vec<String>, b: &Vec<String>) -> (r: bool)
    ensures
        r == (str_seq_view(a@) == str_seq_view(b@)),
{
    if a.len() != b.len() {
        assert(str_seq_view(a@).len() != str_seq_view(b@).len());
        return false;
    }
    let n = a.len();
    let mut i: usize = 0;
    while i < n
        invariant
            n == a@.len() == b@.len(),
            0 <= i <= n,
            forall|j: int| 0 <= j < i ==> #[trigger] a@[j]@ == b@[j]@,
        decreases n - i,
    {
        if !str_eq(a[i].as_str(), b[i].as_str()) {
            assert(str_seq_view(a@)[i as int] != str_seq_view(b@)[i as int]);
            return false;
        }
        i = i + 1;
    }
    assert(str_seq_view(a@) =~= str_seq_view(b@));
    true
}

/// A deep copy of a list of strings.
pub fn clone_string_vec(v: &Vec<String>) -> (r: Vec<String>)
    ensures
        r@ == v@,
{
    let n = v.len();
    let mut r: Vec<String> = Vec::new();
    let mut i: usize = 0;
    while i < n
        invariant
            n == v@.len(),
            0 <= i <= n,
            r@ =~= v@.take(i as int),
        decreases n - i,
    {
        r.push(v[i].clone());
        assert(v@.take(i + 1) =~= v@.take(i as int).push(v@[i as int]));
        i = i + 1;
    }
    assert(v@.take(n as int) =~= v@);
    r
}

/// A copy of a list of integers.
pub fn clone_u32_vec(v: &Vec<u32>) -> (r: Vec<u32>)
    ensures
        r@ == v@,
{
    let n = v.len();
    let mut r: Vec<u32> = Vec::new();
    let mut i: usize = 0;
    while i < n
        invariant
            n == v@.len(),
            0 <= i <= n,
            r@ =~= v@.take(i as int),
        decreases n - i,
    {
        r.push(v[i]);
        assert(v@.take(i + 1) =~= v@.take(i as int).push(v@[i as int]));
        i = i + 1;
    }
    assert(v@.take(n as int) =~= v@);
    r
}

/// Elementwise equality of two integer lists.
pub fn u32_vec_eq(a: &Vec<u32>, b: &Vec<u32>) -> (r: bool)
    ensures
        r == (a@ == b@),
{
    if a.len() != b.len() {
        return false;
    }
    let n = a.len();
    let mut i: usize = 0;
    while i < n
        invariant
            n == a@.len() == b@.len(),
            0 <= i <= n,
            forall|j: int| 0 <= j < i ==> a@[j] == b@[j],
        decreases n - i,
    {
        if a[i] != b[i] {
            return false;
        }
        i = i + 1;
    }
    assert(a@ =~= b@);
    true
}

/// Whether a string list contains a string with this view.
pub fn str_vec_contains(v: &Vec<String>, x: &str) -> (r: bool)
    ensures
        r == str_seq_view(v@).contains(x@),
{
    let n = v.len();
    let mut i: usize = 0;
    while i < n
        invariant
            n == v@.len(),
            0 <= i <= n,
            forall|j: int| 0 <= j < i ==> #[trigger] v@[j]@ != x@,
        decreases n - i,
    {
        if str_eq(v[i].as_str(), x) {
            assert(str_seq_view(v@)[i as int] == x@);
            return true;
        }
        i = i + 1;
    }
    assert forall|j: int| 0 <= j < n implies #[trigger] str_seq_view(v@)[j] != x@ by {
        assert(str_seq_view(v@)[j] == v@[j]@);
    }
    false
}

/// Whether an integer list contains the value.
pub fn u32_vec_contains(v: &Vec<u32>, x: u32) -> (r: bool)
    ensures
        r == v@.contains(x),
{
    let n = v.len();
    let mut i: usize = 0;
    while i < n
        invariant
            n == v@.len(),
            0 <= i <= n,
            forall|j: int| 0 <= j < i ==> v@[j] != x,
        decreases n - i,
    {
        if v[i] == x {
            return true;
        }
        i = i + 1;
    }
    false
}

/// String equality over views.
pub fn str_eq(a: &str, b: &str) -> (r: bool)
    ensures
        r == (a@ == b@),
{
    let av = a.to_owned();
    let bv = b.to_owned();
    av == bv
}

/// Lexicographic order on strings by codepoint.
pub open spec fn lex_le(a: Seq<char>, b: Seq<char>) -> bool
    decreases a.len(),
{
    if a.len() == 0 {
        true
    } else if b.len() == 0 {
        false
    } else if a[0] == b[0] {
        lex_le(a.drop_first(), b.drop_first())
    } else {
        (a[0] as int) < (b[0] as int)
    }
}

pub proof fn lemma_lex_le_total(a: Seq<char>, b: Seq<char>)
    ensures
        lex_le(a, b) || lex_le(b, a),
    decreases a.len(),
{
    if a.len() != 0 && b.len() != 0 {
        if a[0] == b[0] {
            lemma_lex_le_total(a.drop_first(), b.drop_first());
        } else {
            assert((a[0] as int) != (b[0] as int));
        }
    }
}

pub proof fn lemma_lex_le_antisymmetric(a: Seq<char>, b: Seq<char>)
    requires
        lex_le(a, b),
        lex_le(b, a),
    ensures
        a =~= b,
    decreases a.len(),
{
    if a.len() != 0 && b.len() != 0 && a[0] == b[0] {
        lemma_lex_le_antisymmetric(a.drop_first(), b.drop_first());
        assert(a =~= seq![a[0]] + a.drop_first());
        assert(b =~= seq![b[0]] + b.drop_first());
    }
}

pub proof fn lemma_lex_le_transitive(a: Seq<char>, b: Seq<char>, c: Seq<char>)
    requires
        lex_le(a, b),
        lex_le(b, c),
    ensures
        lex_le(a, c),
    decreases a.len(),
{
    if a.len() != 0 && b.len() != 0 && c.len() != 0 {
        if a[0] == b[0] && b[0] == c[0] {
            lemma_lex_le_transitive(a.drop_first(), b.drop_first(), c.drop_first());
        }
    }
}

/// Lexicographic comparison of two strings.
pub fn str_lex_le(a: &str, b: &str) -> (r: bool)
    ensures
        r == lex_le(a@, b@),
{
    let an = a.unicode_len();
    let bn = b.unicode_len();
    let mut i: usize = 0;
    proof {
        assert(a@.skip(0) =~= a@);
        assert(b@.skip(0) =~= b@);
    }
    loop
        invariant
            an == a@.len(),
            bn == b@.len(),
            0 <= i <= an,
            0 <= i <= bn,
            a@.take(i as int) =~= b@.take(i as int),
            lex_le(a@, b@) == lex_le(a@.skip(i as int), b@.skip(i as int)),
        decreases an - i,
    {
        if i >= an {
            return true;
        }
        if i >= bn {
            return false;
        }
        let ca = a.get_char(i);
        let cb = b.get_char(i);
        if ca != cb {
            return (ca as u32) < (cb as u32);
        }
        proof {
            assert(a@.skip(i as int)[0] == a@[i as int]);
            assert(b@.skip(i as int)[0] == b@[i as int]);
            assert(a@.skip(i as int).drop_first() =~= a@.skip(i + 1));
            assert(b@.skip(i as int).drop_first() =~= b@.skip(i + 1));
            assert(a@.take(i + 1) =~= a@.take(i as int).push(a@[i as int]));
            assert(b@.take(i + 1) =~= b@.take(i as int).push(b@[i as int]));
        }
        i = i + 1;
    }
}

/// Whether `c` occurs in the string.
pub fn contains_char(s: &str, c: char) -> (r: bool)
    ensures
        r == s@.contains(c),
{
    let n = s.unicode_len();
    let mut i: usize = 0;
    while i < n
        invariant
            n == s@.len(),
            0 <= i <= n,
            forall|j: int| 0 <= j < i ==> s@[j] != c,
        decreases n - i,
    {
        if s.get_char(i) == c {
            assert(s@[i as int] == c);
            return true;
        }
        i = i + 1;
    }
    false
}

/// The position of the last `c` in the string, scanning from the end.
pub fn rfind_char(s: &str, c: char) -> (r: Option<usize>)
    ensures
        match r {
            Some(i) => {
                &&& 0 <= i < s@.len()
                &&& s@[i as int] == c
                &&& forall|j: int| i < j < s@.len() ==> s@[j] != c
            },
            None => forall|j: int| 0 <= j < s@.len() ==> s@[j] != c,
        },
{
    let n = s.unicode_len();
    let mut i: usize = n;
    while i > 0
        invariant
            n == s@.len(),
            0 <= i <= n,
            forall|j: int| i <= j < n ==> s@[j] != c,
        decreases i,
    {
        i = i - 1;
        if s.get_char(i) == c {
            return Some(i);
        }
    }
    None
}

/// The position of the first `c` in the string.
pub fn find_char(s: &str, c: char) -> (r: Option<usize>)
    ensures
        match r {
            Some(i) => {
                &&& 0 <= i < s@.len()
                &&& s@[i as int] == c
                &&& forall|j: int| 0 <= j < i ==> s@[j] != c
            },
            None => forall|j: int| 0 <= j < s@.len() ==> s@[j] != c,
        },
{
    let n = s.unicode_len();
    let mut i: usize = 0;
    while i < n
        invariant
            n == s@.len(),
            0 <= i <= n,
            forall|j: int| 0 <= j < i ==> s@[j] != c,
        decreases n - i,
    {
        if s.get_char(i) == c {
            return Some(i);
        }
        i = i + 1;
    }
    None
}

/// The decimal digit character of a value below ten.
pub open spec fn digit_char(d: int) -> char {
    if d == 0 {
        '0'
    } else if d == 1 {
        '1'
    } else if d == 2 {
        '2'
    } else if d == 3 {
        '3'
    } else if d == 4 {
        '4'
    } else if d == 5 {
        '5'
    } else if d == 6 {
        '6'
    } else if d == 7 {
        '7'
    } else if d == 8 {
        '8'
    } else {
        '9'
    }
}

/// The decimal form of a number.
pub open spec fn dec_str(n: int) -> Seq<char>
    decreases n,
{
    if n <= 0 {
        seq!['0']
    } else if n < 10 {
        seq![digit_char(n)]
    } else {
        dec_str(n / 10).push(digit_char(n % 10))
    }
}

/// Format a number in decimal.
pub fn u32_to_string(n: u32) -> (r: String)
    ensures
        r@ == dec_str(n as int),
{
    if n == 0 {
        let mut r = String::new();
        push_char(&mut r, '0');
        proof {
            assert(r@ =~= dec_str(0));
        }
        return r;
    }
    let mut digits: Vec<char> = Vec::new();
    let mut rest: u32 = n;
    while rest > 0
        invariant
            0 <= rest <= n,
            n > 0,
            rest > 0 || digits@.len() > 0,
            rest > 0 ==> dec_str(n as int) =~= dec_str(rest as int) + digits@,
            rest == 0 ==> dec_str(n as int) =~= digits@,
        decreases rest,
    {
        let d = rest % 10;
        let c = match d {
            0 => '0',
            1 => '1',
            2 => '2',
            3 => '3',
            4 => '4',
            5 => '5',
            6 => '6',
            7 => '7',
            8 => '8',
            _ => '9',
        };
        proof {
            assert(c == digit_char(d as int));
            if rest >= 10 {
                assert(dec_str(rest as int) =~= dec_str(rest as int / 10).push(
                    digit_char(rest as int % 10),
                ));
                assert(dec_str(rest as int) =~= dec_str(rest as int / 10) + seq![
                    digit_char(rest as int % 10),
                ]);
            } else {
                assert(dec_str(rest as int) =~= seq![digit_char(rest as int)]);
            }
            assert(seq![c] + digits@ =~= seq![c].add(digits@));
        }
        let ghost before = digits@;
        digits.insert(0, c);
        proof {
            assert(digits@ =~= seq![c] + before);
        }
        rest = rest / 10;
    }
    let mut r = String::new();
    let m = digits.len();
    let mut i: usize = 0;
    while i < m
        invariant
            m == digits@.len(),
            0 <= i <= m,
            r@ =~= digits@.take(i as int),
        decreases m - i,
    {
        push_char(&mut r, digits[i]);
        assert(digits@.take(i + 1) =~= digits@.take(i as int).push(digits@[i as int]));
        i = i + 1;
    }
    proof {
        assert(digits@.take(m as int) =~= digits@);
    }
    r
}

/// The characters after the first `@`, if one occurs.
pub open spec fn after_first_at(e: Seq<char>) -> Option<Seq<char>>
    decreases e.len(),
{
    if e.len() == 0 {
        None
    } else if e[0] == '@' {
        Some(e.drop_first())
    } else {
        after_first_at(e.drop_first())
    }
}

/// The characters before the first `@`, or the whole string.
pub open spec fn until_first_at(e: Seq<char>) -> Seq<char>
    decreases e.len(),
{
    if e.len() == 0 {
        Seq::empty()
    } else if e[0] == '@' {
        Seq::empty()
    } else {
        seq![e[0]] + until_first_at(e.drop_first())
    }
}

/// The domain part an address is validated under: the segment after the
/// first `@`, cut at any further `@`.
pub open spec fn email_domain(e: Seq<char>) -> Option<Seq<char>> {
    match after_first_at(e) {
        Some(rest) => Some(until_first_at(rest)),
        None => None,
    }
}

pub proof fn lemma_after_first_at(e: Seq<char>, i: int)
    requires
        0 <= i < e.len(),
        e[i] == '@',
        forall|j: int| 0 <= j < i ==> e[j] != '@',
    ensures
        after_first_at(e) == Some(e.skip(i + 1)),
    decreases i,
{
    if i == 0 {
        assert(e.drop_first() =~= e.skip(1));
    } else {
        lemma_after_first_at(e.drop_first(), i - 1);
        assert(e.drop_first().skip(i) =~= e.skip(i + 1));
    }
}

pub proof fn lemma_after_first_at_none(e: Seq<char>)
    requires
        forall|j: int| 0 <= j < e.len() ==> e[j] != '@',
    ensures
        after_first_at(e) is None,
    decreases e.len(),
{
    if e.len() > 0 {
        lemma_after_first_at_none(e.drop_first());
    }
}

pub proof fn lemma_until_first_at(e: Seq<char>, i: int)
    requires
        0 <= i <= e.len(),
        forall|j: int| 0 <= j < i ==> e[j] != '@',
        i < e.len() ==> e[i] == '@',
    ensures
        until_first_at(e) == e.take(i),
    decreases i,
{
    if i == 0 {
        assert(until_first_at(e) =~= e.take(0));
    } else {
        lemma_until_first_at(e.drop_first(), i - 1);
        assert(until_first_at(e) =~= seq![e[0]] + e.drop_first().take(i - 1));
        assert(seq![e[0]] + e.drop_first().take(i - 1) =~= e.take(i));
    }
}

/// The domain part of an address, as `email_domain` gives it.
pub fn email_domain_of(e: &str) -> (r: Option<String>)
    ensures
        match r {
            Some(d) => email_domain(e@) == Some(d@),
            None => email_domain(e@) is None,
        },
{
    match find_char(e, '@') {
        Some(i) => {
            proof {
                lemma_after_first_at(e@, i as int);
            }
            let n = e.unicode_len();
            let rest = substring(e, i + 1, n);
            proof {
                assert(rest@ =~= e@.skip(i + 1));
            }
            match find_char(rest.as_str(), '@') {
                Some(k) => {
                    proof {
                        lemma_until_first_at(rest@, k as int);
                    }
                    Some(substring(rest.as_str(), 0, k))
                },
                None => {
                    proof {
                        lemma_until_first_at(rest@, rest@.len() as int);
                        assert(rest@.take(rest@.len() as int) =~= rest@);
                    }
                    let m = rest.unicode_len();
                    Some(substring(rest.as_str(), 0, m))
                },
            }
        },
        None => {
            proof {
                lemma_after_first_at_none(e@);
            }
            None
        },
    }
}

/// Copy of the characters in `[from, to)` as an owned string.
pub fn substring(s: &str, from: usize, to: usize) -> (r: String)
    requires
        from <= to <= s@.len(),
    ensures
        r@ == s@.subrange(from as int, to as int),
{
    s.substring_char(from, to).to_owned()
}

} // verus!
