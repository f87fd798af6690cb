//! Character-level helpers on strings: appending, ASCII upper-casing and
//! the code-point order in which keys are sorted.
use vstd::prelude::*;
use vstd::string::StrSliceExecFns;

verus! {

/// Relies on `String::push`: appends one character.
#[verifier::external_body]
pub(crate) fn push_char(s: &mut String, c: char)
    ensures
        final(s)@ == old(s)@.push(c),
{
    s.push(c);
}

/// ASCII upper case of one character; every other character is kept.
pub open spec fn upper_char(c: char) -> char {
    if 'a' <= c && c <= 'z' {
        ((c as u32) - 32) as char
    } else {
        c
    }
}

pub open spec fn upper_seq(s: Seq<char>) -> Seq<char> {
    s.map_values(|c: char| upper_char(c))
}

/// The ASCII upper case of `s`, as the store folds keys.
pub fn ascii_upper(s: &str) -> (r: String)
    ensures
        r@ == upper_seq(s@),
{
    let n = s.unicode_len();
    let mut out = String::new();
    let mut i: usize = 0;
    while i < n
        invariant
            n == s@.len(),
            0 <= i <= n,
            out@ == upper_seq(s@.take(i as int)),
        decreases n - i,
    {
        let c = s.get_char(i);
        let u = if 'a' <= c && c <= 'z' {
            ((c as u8) - 32) as char
        } else {
            c
        };
        push_char(&mut out, u);
        i = i + 1;
        assert(upper_seq(s@.take(i as int)) =~= upper_seq(s@.take(i - 1 as int)).push(upper_char(c)));
    }
    assert(s@.take(n as int) =~= s@);
    out
}

/// Strict lexicographic order by code point (the order of UTF-8 bytes).
pub open spec fn lex_lt(a: Seq<char>, b: Seq<char>) -> bool
    decreases a.len(),
{
    if a.len() == 0 {
        b.len() > 0
    } else if b.len() == 0 {
        false
    } else if a[0] < b[0] {
        true
    } else if a[0] == b[0] {
        lex_lt(a.skip(1), b.skip(1))
    } else {
        false
    }
}

pub proof fn lemma_lex_irreflexive(a: Seq<char>)
    ensures
        !lex_lt(a, a),
    decreases a.len(),
{
    if a.len() > 0 {
        lemma_lex_irreflexive(a.skip(1));
    }
}

pub proof fn lemma_lex_transitive(a: Seq<char>, b: Seq<char>, c: Seq<char>)
    requires
        lex_lt(a, b),
        lex_lt(b, c),
    ensures
        lex_lt(a, c),
    decreases a.len(),
{
    if a.len() > 0 && b.len() > 0 && c.len() > 0 {
        if a[0] == b[0] && b[0] == c[0] {
            lemma_lex_transitive(a.skip(1), b.skip(1), c.skip(1));
        }
    }
}

pub proof fn lemma_lex_total(a: Seq<char>, b: Seq<char>)
    requires
        a != b,
    ensures
        lex_lt(a, b) || lex_lt(b, a),
    decreases a.len(),
{
    if a.len() > 0 && b.len() > 0 && a[0] == b[0] {
        if a.skip(1) == b.skip(1) {
            assert(a =~= seq![a[0]] + a.skip(1));
            assert(b =~= seq![b[0]] + b.skip(1));
        }
        lemma_lex_total(a.skip(1), b.skip(1));
    } else if a.len() == 0 && b.len() == 0 {
        assert(a =~= b);
    }
}

/// Whether `a` sorts strictly before `b` by code point.
pub fn str_lt(a: &str, b: &str) -> (r: bool)
    ensures
        r == lex_lt(a@, b@),
{
    let n = a.unicode_len();
    let m = b.unicode_len();
    let mut i: usize = 0;
    assert(a@.skip(0) =~= a@);
    assert(b@.skip(0) =~= b@);
    while i < n && i < m
        invariant
            n == a@.len(),
            m == b@.len(),
            0 <= i <= n,
            i <= m,
            lex_lt(a@, b@) == lex_lt(a@.skip(i as int), b@.skip(i as int)),
        decreases n - i,
    {
        let x = a.get_char(i);
        let y = b.get_char(i);
        proof {
            assert(a@.skip(i as int)[0] == x);
            assert(b@.skip(i as int)[0] == y);
            assert(a@.skip(i as int).skip(1) =~= a@.skip(i + 1 as int));
            assert(b@.skip(i as int).skip(1) =~= b@.skip(i + 1 as int));
        }
        if x < y {
            return true;
        }
        if x != y {
            return false;
        }
        i = i + 1;
    }
    i == n && i < m
}

/// Whether the character is white space in the sense of `char::is_whitespace`.
pub open spec fn is_space(c: char) -> bool {
    ||| c == ' ' || c == '\t' || c == '\n' || c == '\x0B' || c == '\x0C' || c == '\r'
    ||| c == '\u{85}' || c == '\u{A0}' || c == '\u{1680}'
    ||| ('\u{2000}' <= c && c <= '\u{200A}')
    ||| c == '\u{2028}' || c == '\u{2029}' || c == '\u{202F}' || c == '\u{205F}' || c == '\u{3000}'
}

fn char_is_space(c: char) -> (r: bool)
    ensures
        r == is_space(c),
{
    c == ' ' || c == '\t' || c == '\n' || c == '\x0B' || c == '\x0C' || c == '\r' || c == '\u{85}'
        || c == '\u{A0}' || c == '\u{1680}' || ('\u{2000}' <= c && c <= '\u{200A}') || c == '\u{2028}'
        || c == '\u{2029}' || c == '\u{202F}' || c == '\u{205F}' || c == '\u{3000}'
}

/// Number of leading white-space characters.
pub open spec fn lead_len(s: Seq<char>) -> nat
    decreases s.len(),
{
    if s.len() > 0 && is_space(s[0]) {
        1 + lead_len(s.skip(1))
    } else {
        0
    }
}

/// Number of trailing white-space characters.
pub open spec fn trail_len(s: Seq<char>) -> nat
    decreases s.len(),
{
    if s.len() > 0 && is_space(s.last()) {
        1 + trail_len(s.drop_last())
    } else {
        0
    }
}

/// `s` without leading and trailing white space, as `str::trim` gives it.
pub open spec fn trim_seq(s: Seq<char>) -> Seq<char> {
    let t = s.skip(lead_len(s) as int);
    t.take(t.len() - trail_len(t))
}

/// The characters `s[from..to]` as a new string.
pub fn slice_chars(s: &Vec<char>, from: usize, to: usize) -> (r: String)
    requires
        from <= to <= s@.len(),
    ensures
        r@ == s@.subrange(from as int, to as int),
{
    let mut out = String::new();
    let mut i: usize = from;
    while i < to
        invariant
            from <= i <= to,
            to <= s@.len(),
            out@ == s@.subrange(from as int, i as int),
        decreases to - i,
    {
        push_char(&mut out, s[i]);
        i = i + 1;
        assert(out@ =~= s@.subrange(from as int, i as int));
    }
    out
}

/// `s[from..to]` without leading and trailing white space.
pub fn trimmed(s: &Vec<char>, from: usize, to: usize) -> (r: String)
    requires
        from <= to <= s@.len(),
    ensures
        r@ == trim_seq(s@.subrange(from as int, to as int)),
{
    let ghost whole = s@.subrange(from as int, to as int);
    let mut a: usize = from;
    while a < to && char_is_space(s[a])
        invariant
            from <= a <= to,
            to <= s@.len(),
            whole == s@.subrange(from as int, to as int),
            lead_len(whole) == (a - from) + lead_len(s@.subrange(a as int, to as int)),
        decreases to - a,
    {
        proof {
            let t = s@.subrange(a as int, to as int);
            assert(t[0] == s@[a as int]);
            assert(t.skip(1) =~= s@.subrange(a + 1, to as int));
        }
        a = a + 1;
    }
    proof {
        let t = s@.subrange(a as int, to as int);
        if a < to {
            assert(t[0] == s@[a as int]);
        }
        assert(lead_len(t) == 0);
        assert(whole.skip(lead_len(whole) as int) =~= t);
    }
    let ghost t = s@.subrange(a as int, to as int);
    let mut b: usize = to;
    while b > a && char_is_space(s[b - 1])
        invariant
            a <= b <= to,
            to <= s@.len(),
            t == s@.subrange(a as int, to as int),
            trail_len(t) == (to - b) + trail_len(s@.subrange(a as int, b as int)),
        decreases b - a,
    {
        proof {
            let u = s@.subrange(a as int, b as int);
            assert(u.last() == s@[b - 1]);
            assert(u.drop_last() =~= s@.subrange(a as int, b - 1));
        }
        b = b - 1;
    }
    proof {
        let u = s@.subrange(a as int, b as int);
        if b > a {
            assert(u.last() == s@[b - 1]);
        }
        assert(trail_len(u) == 0);
        assert(t.take(t.len() - trail_len(t)) =~= u);
    }
    slice_chars(s, a, b)
}

/// The characters of `s`.
pub fn chars_of(s: &str) -> (r: Vec<char>)
    ensures
        r@ == s@,
{
    let n = s.unicode_len();
    let mut out: Vec<char> = Vec::new();
    let mut i: usize = 0;
    while i < n
        invariant
            n == s@.len(),
            0 <= i <= n,
            out@ == s@.take(i as int),
        decreases n - i,
    {
        out.push(s.get_char(i));
        i = i + 1;
        assert(out@ =~= s@.take(i as int));
    }
    assert(s@.take(n as int) =~= s@);
    out
}

} // verus!
