//! Character-level text utilities: whitespace trimming, lexicographic
//! comparison, splitting, and integer parsing, each with an exact
//! specification over `Seq<char>`.

use vstd::prelude::*;

verus! {

/// Relies on std's `String::push`: appends exactly one character.
#[verifier::external_body]
pub(crate) fn push_char(s: &mut String, c: char)
    ensures
        final(s)@ == old(s)@.push(c),
{
    s.push(c);
}

/// The whitespace characters the catalog/time parsers recognise:
/// space, tab, carriage return and line feed.
pub open spec fn is_space(c: char) -> bool {
    c == ' ' || c == '\t' || c == '\r' || c == '\n'
}

pub fn char_is_space(c: char) -> (r: bool)
    ensures
        r == is_space(c),
{
    c == ' ' || c == '\t' || c == '\r' || c == '\n'
}

pub open spec fn trim_end_spec(s: Seq<char>) -> Seq<char>
    decreases s.len(),
{
    if s.len() > 0 && is_space(s.last()) {
        trim_end_spec(s.drop_last())
    } else {
        s
    }
}

pub open spec fn trim_start_spec(s: Seq<char>) -> Seq<char>
    decreases s.len(),
{
    if s.len() > 0 && is_space(s.first()) {
        trim_start_spec(s.drop_first())
    } else {
        s
    }
}

/// The view of `str::trim`, over the whitespace set of `is_space`.
pub open spec fn trim_spec(s: Seq<char>) -> Seq<char> {
    trim_start_spec(trim_end_spec(s))
}

/// Removes leading and trailing whitespace characters.
pub fn trim_str(s: &str) -> (r: String)
    ensures
        r@ == trim_spec(s@),
{
    let n: usize = s.unicode_len();
    let mut end: usize = n;
    proof {
        assert(s@.subrange(0, n as int) =~= s@);
    }
    while end > 0 && char_is_space(s.get_char(end - 1))
        invariant
            end <= n,
            n == s@.len(),
            trim_end_spec(s@) == trim_end_spec(s@.subrange(0, end as int)),
        decreases end,
    {
        proof {
            assert(s@.subrange(0, end as int).drop_last() =~= s@.subrange(0, end - 1));
        }
        end = end - 1;
    }
    proof {
        assert(s@.subrange(0, n as int) =~= s@);
        if end > 0 {
            assert(trim_end_spec(s@.subrange(0, end as int)) == s@.subrange(0, end as int));
        }
    }
    let mut start: usize = 0;
    while start < end && char_is_space(s.get_char(start))
        invariant
            start <= end <= n,
            n == s@.len(),
            trim_start_spec(s@.subrange(0, end as int)) == trim_start_spec(
                s@.subrange(start as int, end as int),
            ),
        decreases end - start,
    {
        proof {
            assert(s@.subrange(start as int, end as int).drop_first() =~= s@.subrange(
                start + 1,
                end as int,
            ));
        }
        start = start + 1;
    }
    proof {
        if start < end {
            assert(trim_start_spec(s@.subrange(start as int, end as int)) == s@.subrange(
                start as int,
                end as int,
            ));
        } else {
            assert(s@.subrange(start as int, end as int) =~= Seq::<char>::empty());
        }
    }
    let r = s.substring_char(start, end).to_owned();
    r
}

/// Strict lexicographic order on character sequences, by code point.
pub open spec fn lex_lt(a: Seq<char>, b: Seq<char>) -> bool
    decreases a.len(),
{
    if b.len() == 0 {
        false
    } else if a.len() == 0 {
        true
    } else if a.first() != b.first() {
        (a.first() as u32) < (b.first() as u32)
    } else {
        lex_lt(a.drop_first(), b.drop_first())
    }
}

/// Non-strict counterpart of `lex_lt`.
pub open spec fn lex_le(a: Seq<char>, b: Seq<char>) -> bool {
    !lex_lt(b, a)
}

pub proof fn lemma_lex_lt_irreflexive(a: Seq<char>)
    ensures
        !lex_lt(a, a),
    decreases a.len(),
{
    if a.len() > 0 {
        lemma_lex_lt_irreflexive(a.drop_first());
    }
}

pub proof fn lemma_lex_lt_transitive(a: Seq<char>, b: Seq<char>, c: Seq<char>)
    requires
        lex_lt(a, b),
        lex_lt(b, c),
    ensures
        lex_lt(a, c),
    decreases a.len() + b.len() + c.len(),
{
    if b.len() > 0 && c.len() > 0 && a.len() > 0 {
        if a.first() == b.first() && b.first() == c.first() {
            lemma_lex_lt_transitive(a.drop_first(), b.drop_first(), c.drop_first());
        }
    }
}

/// Compares two strings in code-point lexicographic order.
pub fn str_lex_lt(a: &str, b: &str) -> (r: bool)
    ensures
        r == lex_lt(a@, b@),
{
    let alen: usize = a.unicode_len();
    let blen: usize = b.unicode_len();
    let mut i: usize = 0;
    proof {
        assert(a@.subrange(0, alen as int) =~= a@);
        assert(b@.subrange(0, blen as int) =~= b@);
    }
    loop
        invariant
            i <= alen,
            i <= blen,
            alen == a@.len(),
            blen == b@.len(),
            lex_lt(a@, b@) == lex_lt(a@.subrange(i as int, alen as int), b@.subrange(i as int, blen as int)),
        decreases alen - i,
    {
        proof {
            let ra = a@.subrange(i as int, alen as int);
            let rb = b@.subrange(i as int, blen as int);
            if i < alen && i < blen && a@[i as int] == b@[i as int] {
                assert(ra.drop_first() =~= a@.subrange(i + 1, alen as int));
                assert(rb.drop_first() =~= b@.subrange(i + 1, blen as int));
            }
        }
        if i >= blen {
            return false;
        }
        if i >= alen {
            return true;
        }
        let ca = a.get_char(i);
        let cb = b.get_char(i);
        if ca != cb {
            return (ca as u32) < (cb as u32);
        }
        i = i + 1;
    }
}

/// Compares two strings character by character.
pub fn str_eq(a: &str, b: &str) -> (r: bool)
    ensures
        r == (a@ == b@),
{
    let alen: usize = a.unicode_len();
    let blen: usize = b.unicode_len();
    if alen != blen {
        return false;
    }
    let mut i: usize = 0;
    while i < alen
        invariant
            i <= alen,
            alen == a@.len(),
            blen == b@.len(),
            alen == blen,
            forall|j: int| 0 <= j < i ==> a@[j] == b@[j],
        decreases alen - i,
    {
        if a.get_char(i) != b.get_char(i) {
            return false;
        }
        i = i + 1;
    }
    proof {
        assert(a@ =~= b@);
    }
    true
}

/// `c` matches `u` up to ASCII case, where `u` is an upper-case letter.
pub open spec fn char_ci_eq(c: char, u: char) -> bool {
    c == u || (c as u32) == (u as u32) + 32
}

/// `s` equals `t` up to ASCII case, where `t` is written in upper case.
pub open spec fn matches_ci(s: Seq<char>, t: Seq<char>) -> bool {
    s.len() == t.len() && (forall|i: int| 0 <= i < t.len() ==> char_ci_eq(s[i], t[i]))
}

pub fn str_matches_ci(s: &str, t: &str) -> (r: bool)
    ensures
        r == matches_ci(s@, t@),
{
    let slen: usize = s.unicode_len();
    let tlen: usize = t.unicode_len();
    if slen != tlen {
        return false;
    }
    let mut i: usize = 0;
    while i < tlen
        invariant
            i <= tlen,
            slen == s@.len(),
            tlen == t@.len(),
            slen == tlen,
            forall|j: int| 0 <= j < i ==> char_ci_eq(s@[j], t@[j]),
        decreases tlen - i,
    {
        let cs = s.get_char(i);
        let ct = t.get_char(i);
        if !(cs == ct || (cs as u32) == (ct as u32) + 32) {
            return false;
        }
        i = i + 1;
    }
    true
}

/// The index of the first occurrence of `c` in `s`, or -1.
pub open spec fn find_char_spec(s: Seq<char>, c: char) -> int
    decreases s.len(),
{
    if s.len() == 0 {
        -1
    } else if s.first() == c {
        0
    } else {
        let r = find_char_spec(s.drop_first(), c);
        if r < 0 {
            -1
        } else {
            r + 1
        }
    }
}

proof fn lemma_find_char_unique(s: Seq<char>, c: char, p: int)
    requires
        0 <= p <= s.len(),
        forall|i: int| 0 <= i < p ==> s[i] != c,
        p < s.len() ==> s[p] == c,
    ensures
        find_char_spec(s, c) == (if p == s.len() {
            -1int
        } else {
            p
        }),
    decreases s.len(),
{
    if s.len() > 0 && p > 0 {
        assert forall|i: int| 0 <= i < p - 1 implies s.drop_first()[i] != c by {
            assert(s.drop_first()[i] == s[i + 1]);
        }
        if p - 1 < s.drop_first().len() {
            assert(s.drop_first()[p - 1] == s[p]);
        }
        lemma_find_char_unique(s.drop_first(), c, p - 1);
    }
}

/// Finds the first occurrence of `c`.
pub fn find_char(s: &str, c: char) -> (r: Option<usize>)
    ensures
        match r {
            Some(i) => find_char_spec(s@, c) == i as int && i < s@.len(),
            None => find_char_spec(s@, c) == -1,
        },
{
    let n: usize = s.unicode_len();
    let mut i: usize = 0;
    while i < n
        invariant
            i <= n,
            n == s@.len(),
            forall|j: int| 0 <= j < i ==> s@[j] != c,
        decreases n - i,
    {
        if s.get_char(i) == c {
            proof {
                lemma_find_char_unique(s@, c, i as int);
            }
            return Some(i);
        }
        i = i + 1;
    }
    proof {
        lemma_find_char_unique(s@, c, n as int);
    }
    None
}

/// The views of a sequence of strings.
pub open spec fn str_views(s: Seq<String>) -> Seq<Seq<char>> {
    s.map_values(|x: String| x@)
}

/// The view of `str::split` on a one-character separator: the fragments
/// between occurrences of `sep`, in order, always at least one of them.
pub open spec fn split_char_spec(s: Seq<char>, sep: char) -> Seq<Seq<char>>
    decreases s.len(),
{
    if s.len() == 0 {
        seq![Seq::<char>::empty()]
    } else {
        let rest = split_char_spec(s.drop_last(), sep);
        if s.last() == sep {
            rest.push(Seq::<char>::empty())
        } else {
            rest.update(rest.len() - 1, rest.last().push(s.last()))
        }
    }
}

pub proof fn lemma_split_nonempty(s: Seq<char>, sep: char)
    ensures
        split_char_spec(s, sep).len() >= 1,
    decreases s.len(),
{
    if s.len() > 0 {
        lemma_split_nonempty(s.drop_last(), sep);
    }
}

/// Splits a string at every occurrence of `sep`.
pub fn split_str(s: &str, sep: char) -> (r: Vec<String>)
    ensures
        str_views(r@) == split_char_spec(s@, sep),
        r@.len() >= 1,
{
    let n: usize = s.unicode_len();
    let mut r: Vec<String> = Vec::new();
    r.push(String::new());
    proof {
        assert(s@.subrange(0, 0) =~= Seq::<char>::empty());
        assert(str_views(r@) =~= split_char_spec(s@.subrange(0, 0), sep));
    }
    let mut i: usize = 0;
    while i < n
        invariant
            i <= n,
            n == s@.len(),
            r@.len() >= 1,
            str_views(r@) == split_char_spec(s@.subrange(0, i as int), sep),
        decreases n - i,
    {
        let c = s.get_char(i);
        proof {
            assert(s@.subrange(0, i + 1).drop_last() =~= s@.subrange(0, i as int));
            assert(s@.subrange(0, i + 1).last() == s@[i as int]);
            lemma_split_nonempty(s@.subrange(0, i as int), sep);
        }
        if c == sep {
            r.push(String::new());
            proof {
                assert(str_views(r@) =~= split_char_spec(s@.subrange(0, i + 1), sep));
            }
        } else {
            let mut last = r.pop().unwrap();
            push_char(&mut last, c);
            r.push(last);
            proof {
                assert(str_views(r@) =~= split_char_spec(s@.subrange(0, i + 1), sep));
            }
        }
        i = i + 1;
    }
    proof {
        assert(s@.subrange(0, n as int) =~= s@);
    }
    r
}

/// The view of `str::split_whitespace` over the whitespace set of
/// `is_space`: the maximal runs of non-whitespace characters, in order.
pub open spec fn split_ws_spec(s: Seq<char>) -> Seq<Seq<char>>
    decreases s.len(),
{
    if s.len() == 0 {
        Seq::<Seq<char>>::empty()
    } else {
        let rest = split_ws_spec(s.drop_last());
        if is_space(s.last()) {
            rest
        } else if s.len() >= 2 && !is_space(s[s.len() - 2]) {
            rest.update(rest.len() - 1, rest.last().push(s.last()))
        } else {
            rest.push(seq![s.last()])
        }
    }
}

pub proof fn lemma_split_ws_open(s: Seq<char>)
    requires
        s.len() > 0,
        !is_space(s.last()),
    ensures
        split_ws_spec(s).len() >= 1,
    decreases s.len(),
{
    if s.len() >= 2 && !is_space(s[s.len() - 2]) {
        lemma_split_ws_open(s.drop_last());
    }
}

/// Splits a string into its whitespace-separated tokens.
pub fn split_ws(s: &str) -> (r: Vec<String>)
    ensures
        str_views(r@) == split_ws_spec(s@),
{
    let n: usize = s.unicode_len();
    let mut r: Vec<String> = Vec::new();
    proof {
        assert(s@.subrange(0, 0) =~= Seq::<char>::empty());
        assert(str_views(r@) =~= split_ws_spec(s@.subrange(0, 0)));
    }
    let mut i: usize = 0;
    while i < n
        invariant
            i <= n,
            n == s@.len(),
            str_views(r@) == split_ws_spec(s@.subrange(0, i as int)),
        decreases n - i,
    {
        let c = s.get_char(i);
        let ghost pre = s@.subrange(0, i as int);
        let ghost cur = s@.subrange(0, i + 1);
        proof {
            assert(cur.drop_last() =~= pre);
            assert(cur.last() == s@[i as int]);
        }
        if !char_is_space(c) {
            if i > 0 && !char_is_space(s.get_char(i - 1)) {
                proof {
                    assert(pre.last() == s@[i - 1]);
                    lemma_split_ws_open(pre);
                }
                let mut last = r.pop().unwrap();
                push_char(&mut last, c);
                r.push(last);
                proof {
                    assert(str_views(r@) =~= split_ws_spec(cur));
                }
            } else {
                let mut t = String::new();
                push_char(&mut t, c);
                r.push(t);
                proof {
                    assert(t@ =~= seq![s@[i as int]]);
                    assert(str_views(r@) =~= split_ws_spec(cur));
                }
            }
        } else {
            proof {
                assert(str_views(r@) =~= split_ws_spec(cur));
            }
        }
        i = i + 1;
    }
    proof {
        assert(s@.subrange(0, n as int) =~= s@);
    }
    r
}

pub open spec fn is_digit(c: char) -> bool {
    48 <= (c as u32) <= 57
}

pub open spec fn digit_val(c: char) -> int {
    (c as u32) - 48
}

pub open spec fn all_digits(s: Seq<char>) -> bool {
    forall|i: int| 0 <= i < s.len() ==> is_digit(s[i])
}

/// The non-negative integer denoted by a sequence of decimal digits.
pub open spec fn digits_val(s: Seq<char>) -> int
    decreases s.len(),
{
    if s.len() == 0 {
        0
    } else {
        digits_val(s.drop_last()) * 10 + digit_val(s.last())
    }
}

pub proof fn lemma_digits_val_nonneg(s: Seq<char>)
    requires
        all_digits(s),
    ensures
        digits_val(s) >= 0,
    decreases s.len(),
{
    if s.len() > 0 {
        lemma_digits_val_nonneg(s.drop_last());
    }
}

/// A digit prefix never denotes more than the whole digit string.
pub proof fn lemma_digits_val_prefix(s: Seq<char>, i: int)
    requires
        all_digits(s),
        0 <= i <= s.len(),
    ensures
        digits_val(s.subrange(0, i)) <= digits_val(s),
    decreases s.len() - i,
{
    if i == s.len() {
        assert(s.subrange(0, i) =~= s);
    } else {
        lemma_digits_val_prefix(s, i + 1);
        let t = s.subrange(0, i + 1);
        assert(t.drop_last() =~= s.subrange(0, i));
        lemma_digits_val_nonneg(s.subrange(0, i));
    }
}

/// The view of `str::parse::<i32>`: an optional sign followed by at least
/// one digit, rejected when the value leaves the `i32` range.
pub open spec fn parse_i32_spec(s: Seq<char>) -> Option<int> {
    let neg = s.len() > 0 && s.first() == '-';
    let body = if s.len() > 0 && (s.first() == '-' || s.first() == '+') {
        s.drop_first()
    } else {
        s
    };
    if body.len() == 0 || !all_digits(body) {
        None
    } else {
        let v = if neg {
            -digits_val(body)
        } else {
            digits_val(body)
        };
        if -0x8000_0000 <= v <= 0x7fff_ffff {
            Some(v)
        } else {
            None
        }
    }
}

/// Parses a decimal integer, mirroring `str::parse::<i32>`.
pub fn parse_i32(s: &str) -> (r: Option<i32>)
    ensures
        match r {
            Some(v) => parse_i32_spec(s@) == Some(v as int),
            None => parse_i32_spec(s@) is None,
        },
{
    let n: usize = s.unicode_len();
    if n == 0 {
        return None;
    }
    let c0 = s.get_char(0);
    let neg = c0 == '-';
    let start: usize = if c0 == '-' || c0 == '+' {
        1
    } else {
        0
    };
    let ghost body = if start == 1 {
        s@.drop_first()
    } else {
        s@
    };
    proof {
        if start == 1 {
            assert(body =~= s@.subrange(1, n as int));
        } else {
            assert(body =~= s@.subrange(0, n as int));
        }
    }
    if start == n {
        return None;
    }
    let mut acc: u64 = 0;
    let mut i: usize = start;
    while i < n
        invariant
            start <= i <= n,
            n == s@.len(),
            start == 0 || start == 1,
            start < n,
            n > 0,
            (start == 1) == (s@.first() == '-' || s@.first() == '+'),
            neg == (s@.first() == '-'),
            body == s@.subrange(start as int, n as int),
            body == (if start == 1 {
                s@.drop_first()
            } else {
                s@
            }),
            all_digits(body.subrange(0, i - start)),
            acc == digits_val(body.subrange(0, i - start)),
            acc <= 0x8000_0000,
        decreases n - i,
    {
        let c = s.get_char(i);
        let u: u32 = c as u32;
        proof {
            assert(body.subrange(0, i + 1 - start).drop_last() =~= body.subrange(0, i - start));
            assert(body.subrange(0, i + 1 - start).last() == s@[i as int]);
        }
        if !(48 <= u && u <= 57) {
            proof {
                assert(body[i - start] == s@[i as int]);
                assert(!is_digit(body[i - start]));
                assert(!all_digits(body));
            }
            return None;
        }
        acc = acc * 10 + ((u - 48) as u64);
        i = i + 1;
        if acc > 0x8000_0000 {
            proof {
                if all_digits(body) {
                    lemma_digits_val_prefix(body, i - start);
                    assert(digits_val(body) >= acc > 0x8000_0000);
                }
                assert(parse_i32_spec(s@) is None);
            }
            return None;
        }
    }
    proof {
        assert(body.subrange(0, n - start) =~= body);
    }
    if neg {
        if acc > 0x8000_0000 {
            return None;
        }
        Some((-(acc as i64)) as i32)
    } else {
        if acc > 0x7fff_ffff {
            return None;
        }
        Some(acc as i32)
    }
}

pub open spec fn digit_char_spec(d: int) -> char {
    if d == 0 {
        '0'
    } else if d == 1 {
        '1'
    } else if d == 2 {
        '2'
    } else if d == 3 {
        '3'
    } else if d == 4 {
        '4'
    } else if d == 5 {
        '5'
    } else if d == 6 {
        '6'
    } else if d == 7 {
        '7'
    } else if d == 8 {
        '8'
    } else {
        '9'
    }
}

pub fn digit_to_char(d: u32) -> (c: char)
    requires
        d <= 9,
    ensures
        c == digit_char_spec(d as int),
{
    if d == 0 {
        '0'
    } else if d == 1 {
        '1'
    } else if d == 2 {
        '2'
    } else if d == 3 {
        '3'
    } else if d == 4 {
        '4'
    } else if d == 5 {
        '5'
    } else if d == 6 {
        '6'
    } else if d == 7 {
        '7'
    } else if d == 8 {
        '8'
    } else {
        '9'
    }
}

} // verus!
