//! Characters, runs of characters and whitespace, over `Seq<char>`.
use vstd::prelude::*;

verus! {

broadcast use vstd::string::group_string_axioms;

/// Unicode `White_Space`, the set that `char::is_whitespace` (and so
/// `str::trim`) goes by.
pub open spec fn is_ws(c: char) -> bool {
    let u = c as u32;
    ||| 9 <= u <= 13
    ||| u == 32
    ||| u == 0x85
    ||| u == 0xA0
    ||| u == 0x1680
    ||| 0x2000 <= u <= 0x200A
    ||| u == 0x2028
    ||| u == 0x2029
    ||| u == 0x202F
    ||| u == 0x205F
    ||| u == 0x3000
}

/// ASCII decimal digit.
pub open spec fn is_digit(c: char) -> bool {
    48 <= (c as u32) <= 57
}

/// First character of an ASCII identifier: a letter or `_`.
pub open spec fn is_ident_start(c: char) -> bool {
    let u = c as u32;
    65 <= u <= 90 || 97 <= u <= 122 || u == 95
}

/// Later characters of an ASCII identifier: a letter, a digit or `_`.
pub open spec fn is_ident_char(c: char) -> bool {
    is_ident_start(c) || is_digit(c)
}

pub open spec fn ws_pred() -> spec_fn(char) -> bool {
    |c: char| is_ws(c)
}

pub open spec fn digit_pred() -> spec_fn(char) -> bool {
    |c: char| is_digit(c)
}

pub open spec fn ident_pred() -> spec_fn(char) -> bool {
    |c: char| is_ident_char(c)
}

pub open spec fn newline_pred() -> spec_fn(char) -> bool {
    |c: char| c == '\n'
}

/// The end of the longest run of characters satisfying `p` that starts at `i`.
pub open spec fn run_end(s: Seq<char>, i: int, p: spec_fn(char) -> bool) -> int
    decreases s.len() - i,
{
    if 0 <= i < s.len() && p(s[i]) {
        run_end(s, i + 1, p)
    } else {
        i
    }
}

/// The position of the first character at or after `i` that is not whitespace.
pub open spec fn skip_ws(s: Seq<char>, i: int) -> int {
    run_end(s, i, ws_pred())
}

pub proof fn lemma_run_end(s: Seq<char>, i: int, p: spec_fn(char) -> bool)
    requires
        0 <= i <= s.len(),
    ensures
        i <= run_end(s, i, p) <= s.len(),
        forall|k: int| i <= k < run_end(s, i, p) ==> p(#[trigger] s[k]),
        run_end(s, i, p) < s.len() ==> !p(s[run_end(s, i, p)]),
    decreases s.len() - i,
{
    if i < s.len() && p(s[i]) {
        lemma_run_end(s, i + 1, p);
    }
}

/// A run is determined by where it stops.
pub proof fn lemma_run_end_at(s: Seq<char>, i: int, j: int, p: spec_fn(char) -> bool)
    requires
        0 <= i <= j <= s.len(),
        forall|k: int| i <= k < j ==> p(#[trigger] s[k]),
        j == s.len() || !p(s[j]),
    ensures
        run_end(s, i, p) == j,
    decreases j - i,
{
    if i < j {
        lemma_run_end_at(s, i + 1, j, p);
    }
}

/// `char::is_whitespace`.
pub fn is_whitespace(c: char) -> (r: bool)
    ensures
        r == is_ws(c),
{
    let u = c as u32;
    (9 <= u && u <= 13) || u == 32 || u == 0x85 || u == 0xA0 || u == 0x1680 || (0x2000 <= u && u
        <= 0x200A) || u == 0x2028 || u == 0x2029 || u == 0x202F || u == 0x205F || u == 0x3000
}

pub fn is_ascii_digit(c: char) -> (r: bool)
    ensures
        r == is_digit(c),
{
    let u = c as u32;
    48 <= u && u <= 57
}

pub fn is_ascii_ident_start(c: char) -> (r: bool)
    ensures
        r == is_ident_start(c),
{
    let u = c as u32;
    (65 <= u && u <= 90) || (97 <= u && u <= 122) || u == 95
}

pub fn is_ascii_ident_char(c: char) -> (r: bool)
    ensures
        r == is_ident_char(c),
{
    is_ascii_ident_start(c) || is_ascii_digit(c)
}

/// Skips whitespace from `i`.
pub fn skip_whitespace(s: &Vec<char>, i: usize) -> (r: usize)
    requires
        i <= s.len(),
    ensures
        r == skip_ws(s@, i as int),
        i <= r <= s.len(),
{
    proof {
        lemma_run_end(s@, i as int, ws_pred());
    }
    let mut j = i;
    while j < s.len() && is_whitespace(s[j])
        invariant
            i <= j <= s.len(),
            run_end(s@, j as int, ws_pred()) == run_end(s@, i as int, ws_pred()),
        decreases s.len() - j,
    {
        j += 1;
    }
    j
}

/// Skips ASCII digits from `i`.
pub fn skip_digits(s: &Vec<char>, i: usize) -> (r: usize)
    requires
        i <= s.len(),
    ensures
        r == run_end(s@, i as int, digit_pred()),
        i <= r <= s.len(),
{
    proof {
        lemma_run_end(s@, i as int, digit_pred());
    }
    let mut j = i;
    while j < s.len() && is_ascii_digit(s[j])
        invariant
            i <= j <= s.len(),
            run_end(s@, j as int, digit_pred()) == run_end(s@, i as int, digit_pred()),
        decreases s.len() - j,
    {
        j += 1;
    }
    j
}

/// Skips identifier characters from `i`.
pub fn skip_ident_chars(s: &Vec<char>, i: usize) -> (r: usize)
    requires
        i <= s.len(),
    ensures
        r == run_end(s@, i as int, ident_pred()),
        i <= r <= s.len(),
{
    proof {
        lemma_run_end(s@, i as int, ident_pred());
    }
    let mut j = i;
    while j < s.len() && is_ascii_ident_char(s[j])
        invariant
            i <= j <= s.len(),
            run_end(s@, j as int, ident_pred()) == run_end(s@, i as int, ident_pred()),
        decreases s.len() - j,
    {
        j += 1;
    }
    j
}

/// Skips `'\n'` characters from `i`.
pub fn skip_newlines(s: &Vec<char>, i: usize) -> (r: usize)
    requires
        i <= s.len(),
    ensures
        r == run_end(s@, i as int, newline_pred()),
        i <= r <= s.len(),
{
    proof {
        lemma_run_end(s@, i as int, newline_pred());
    }
    let mut j = i;
    while j < s.len() && s[j] == '\n'
        invariant
            i <= j <= s.len(),
            run_end(s@, j as int, newline_pred()) == run_end(s@, i as int, newline_pred()),
        decreases s.len() - j,
    {
        j += 1;
    }
    j
}

/// The characters of a string, in order.
pub fn chars_of(text: &str) -> (r: Vec<char>)
    ensures
        r@ == text@,
{
    let mut r: Vec<char> = Vec::new();
    for c in it: text.chars()
        invariant
            r@ == it.seq().take(it.index()),
    {
        r.push(c);
    }
    r
}

/// `String::push`: appends one character.
#[verifier::external_body]
pub(crate) fn push_char(s: &mut String, c: char)
    ensures
        final(s)@ == old(s)@.push(c),
{
    s.push(c)
}

/// The string made of the characters of `s` in `[a, b)`.
pub fn string_of(s: &Vec<char>, a: usize, b: usize) -> (r: String)
    requires
        a <= b <= s.len(),
    ensures
        r@ == s@.subrange(a as int, b as int),
{
    let mut r = String::new();
    let mut k = a;
    while k < b
        invariant
            a <= k <= b <= s.len(),
            r@ == s@.subrange(a as int, k as int),
        decreases b - k,
    {
        push_char(&mut r, s[k]);
        k += 1;
        assert(r@ =~= s@.subrange(a as int, k as int));
    }
    r
}

/// The start of the run of whitespace that ends at `j`, scanning backwards.
pub open spec fn rskip_ws(t: Seq<char>, j: int) -> int
    decreases j,
{
    if 0 < j <= t.len() && is_ws(t[j - 1]) {
        rskip_ws(t, j - 1)
    } else {
        j
    }
}

/// `str::trim`: `t` without its leading and trailing whitespace.
pub open spec fn trim(t: Seq<char>) -> Seq<char> {
    let a = skip_ws(t, 0);
    if a == t.len() {
        Seq::empty()
    } else {
        t.subrange(a, rskip_ws(t, t.len() as int))
    }
}

pub proof fn lemma_rskip_at(t: Seq<char>, j: int, k: int)
    requires
        0 <= k <= j <= t.len(),
        forall|x: int| k <= x < j ==> is_ws(#[trigger] t[x]),
        k == 0 || !is_ws(t[k - 1]),
    ensures
        rskip_ws(t, j) == k,
    decreases j - k,
{
    if k < j {
        lemma_rskip_at(t, j - 1, k);
    }
}

/// `lit` occurs in `s` at position `i`.
pub open spec fn has_prefix_at(s: Seq<char>, i: int, lit: Seq<char>) -> bool {
    0 <= i && i + lit.len() <= s.len() && s.subrange(i, i + lit.len()) == lit
}

/// Whether `lit` occurs in `s` at position `i`.
pub fn lit_at(s: &Vec<char>, i: usize, lit: &Vec<char>) -> (r: bool)
    requires
        i <= s.len(),
    ensures
        r == has_prefix_at(s@, i as int, lit@),
{
    if lit.len() > s.len() - i {
        return false;
    }
    let mut k: usize = 0;
    while k < lit.len()
        invariant
            k <= lit.len(),
            i + lit.len() <= s.len(),
            forall|x: int| 0 <= x < k ==> s@[i + x] == lit@[x],
        decreases lit.len() - k,
    {
        if s[i + k] != lit[k] {
            assert(s@.subrange(i as int, i + lit.len())[k as int] != lit@[k as int]);
            return false;
        }
        k += 1;
    }
    assert(s@.subrange(i as int, i + lit.len()) =~= lit@);
    true
}

/// The bounds, in `s`, of the characters of `s[i..m]` that `str::trim` keeps.
pub fn trim_range(s: &Vec<char>, i: usize, m: usize) -> (r: (usize, usize))
    requires
        i <= m <= s.len(),
    ensures
        i <= r.0 <= r.1 <= m,
        s@.subrange(r.0 as int, r.1 as int) == trim(s@.subrange(i as int, m as int)),
{
    let ghost t = s@.subrange(i as int, m as int);
    let mut a = i;
    while a < m && is_whitespace(s[a])
        invariant
            i <= a <= m <= s.len(),
            forall|k: int| i <= k < a ==> is_ws(#[trigger] s@[k]),
        decreases m - a,
    {
        a += 1;
    }
    proof {
        assert forall|k: int| 0 <= k < a - i implies ws_pred()(#[trigger] t[k]) by {
            assert(t[k] == s@[i + k]);
        }
        lemma_run_end_at(t, 0, a - i, ws_pred());
    }
    if a == m {
        assert(s@.subrange(a as int, a as int) =~= Seq::<char>::empty());
        return (a, a);
    }
    let mut b = m;
    while b > a + 1 && is_whitespace(s[b - 1])
        invariant
            i <= a < b <= m <= s.len(),
            !is_ws(s@[a as int]),
            forall|k: int| b <= k < m ==> is_ws(#[trigger] s@[k]),
        decreases b,
    {
        b -= 1;
    }
    proof {
        assert forall|x: int| b - i <= x < m - i implies is_ws(#[trigger] t[x]) by {
            assert(t[x] == s@[i + x]);
        }
        assert(t[b - i - 1] == s@[b - 1]);
        lemma_rskip_at(t, m - i, b - i);
        assert(s@.subrange(a as int, b as int) =~= t.subrange(a - i, b - i));
    }
    (a, b)
}

/// A run in a suffix of `s` is the same run as in `s`, shifted.
pub proof fn lemma_run_end_skip(s: Seq<char>, p: int, x: int, f: spec_fn(char) -> bool)
    requires
        0 <= p <= s.len(),
        0 <= x,
    ensures
        run_end(s.skip(p), x, f) == run_end(s, p + x, f) - p,
    decreases s.len() - p - x,
{
    if x < s.len() - p && f(s[p + x]) {
        assert(s.skip(p)[x] == s[p + x]);
        lemma_run_end_skip(s, p, x + 1, f);
    } else if x < s.len() - p {
        assert(s.skip(p)[x] == s[p + x]);
    }
}

pub proof fn lemma_rskip_le(t: Seq<char>, j: int)
    ensures
        rskip_ws(t, j) <= j,
        0 <= j ==> 0 <= rskip_ws(t, j),
    decreases j,
{
    if 0 < j <= t.len() && is_ws(t[j - 1]) {
        lemma_rskip_le(t, j - 1);
    }
}

pub proof fn lemma_rskip_ge(t: Seq<char>, j: int, k: int)
    requires
        0 <= k < j <= t.len(),
        !is_ws(t[k]),
    ensures
        k < rskip_ws(t, j),
    decreases j,
{
    if is_ws(t[j - 1]) {
        lemma_rskip_ge(t, j - 1, k);
    }
}

/// A text that `trim` leaves as it is starts and ends with a character that
/// is not whitespace, if it has any.
pub proof fn lemma_trimmed_ends(o: Seq<char>)
    requires
        trim(o) == o,
        o.len() > 0,
    ensures
        !is_ws(o[0]),
        !is_ws(o[o.len() - 1]),
{
    lemma_run_end(o, 0, ws_pred());
    let a = skip_ws(o, 0);
    lemma_rskip_le(o, o.len() as int);
    let r = rskip_ws(o, o.len() as int);
    if a == o.len() {
        assert(trim(o).len() == 0);
    } else {
        lemma_rskip_ge(o, o.len() as int, a);
        assert(trim(o).len() == r - a);
        assert(a == 0);
        assert(r == o.len());
        if is_ws(o[o.len() - 1]) {
            lemma_rskip_le(o, o.len() - 1);
        }
    }
}

/// Trimming a trimmed text followed by whitespace gives the text back.
pub proof fn lemma_trim_ws_suffix(o: Seq<char>, w: Seq<char>)
    requires
        trim(o) == o,
        forall|i: int| 0 <= i < w.len() ==> is_ws(#[trigger] w[i]),
    ensures
        trim(o + w) == o,
{
    let t = o + w;
    if o.len() == 0 {
        assert(t =~= w);
        assert forall|k: int| 0 <= k < t.len() implies ws_pred()(#[trigger] t[k]) by {
            assert(t[k] == w[k]);
        }
        lemma_run_end_at(t, 0, t.len() as int, ws_pred());
        assert(trim(t) =~= o);
    } else {
        lemma_trimmed_ends(o);
        assert(t[0] == o[0]);
        lemma_run_end_at(t, 0, 0, ws_pred());
        assert forall|k: int| o.len() <= k < t.len() implies is_ws(#[trigger] t[k]) by {
            assert(t[k] == w[k - o.len()]);
        }
        assert(t[o.len() - 1] == o[o.len() - 1]);
        lemma_rskip_at(t, t.len() as int, o.len() as int);
        assert(trim(t) =~= o);
    }
}

} // verus!
