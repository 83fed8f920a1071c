//! Character-level text operations shared by the lexer, the source
//! generator, the parser front end and the diagnostics rewriter.
//!
//! Text is modelled as `Seq<char>`, the view of `str` and `String`.
use vstd::prelude::*;

verus! {

// ---------------------------------------------------------------------------
// Whitespace and trimming
// ---------------------------------------------------------------------------

/// The Unicode `White_Space` property, the set that `char::is_whitespace`
/// tests for.
pub open spec fn is_white_space(c: char) -> bool {
    let u = c as u32;
    ||| 0x9 <= u <= 0xd
    ||| u == 0x20
    ||| u == 0x85
    ||| u == 0xa0
    ||| u == 0x1680
    ||| 0x2000 <= u <= 0x200a
    ||| u == 0x2028
    ||| u == 0x2029
    ||| u == 0x202f
    ||| u == 0x205f
    ||| u == 0x3000
}

/// Whether `c` is Unicode whitespace.
pub fn is_whitespace(c: char) -> (r: bool)
    ensures
        r == is_white_space(c),
{
    let u = c as u32;
    (0x9 <= u && u <= 0xd) || u == 0x20 || u == 0x85 || u == 0xa0 || u == 0x1680 || (0x2000
        <= u && u <= 0x200a) || u == 0x2028 || u == 0x2029 || u == 0x202f || u == 0x205f || u
        == 0x3000
}

/// `s` without its leading whitespace.
pub open spec fn trim_start(s: Seq<char>) -> Seq<char>
    decreases s.len(),
{
    if s.len() > 0 && is_white_space(s[0]) {
        trim_start(s.drop_first())
    } else {
        s
    }
}

/// `s` without its trailing whitespace.
pub open spec fn trim_end(s: Seq<char>) -> Seq<char>
    decreases s.len(),
{
    if s.len() > 0 && is_white_space(s.last()) {
        trim_end(s.drop_last())
    } else {
        s
    }
}

/// `s` without leading and trailing whitespace.
pub open spec fn trim(s: Seq<char>) -> Seq<char> {
    trim_end(trim_start(s))
}

/// `s` without any trailing copies of `c`.
pub open spec fn trim_end_matches(s: Seq<char>, c: char) -> Seq<char>
    decreases s.len(),
{
    if s.len() > 0 && s.last() == c {
        trim_end_matches(s.drop_last(), c)
    } else {
        s
    }
}

/// Whether `s` ends with `suffix`.
pub open spec fn ends_with(s: Seq<char>, suffix: Seq<char>) -> bool {
    suffix.len() <= s.len() && s.subrange(s.len() - suffix.len(), s.len() as int) == suffix
}

/// Whether `s` ends with the character `c`.
pub open spec fn ends_with_char(s: Seq<char>, c: char) -> bool {
    s.len() > 0 && s.last() == c
}

/// Leading white space can be skipped before trimming.
proof fn lemma_trim_start_skip(s: Seq<char>, i: int)
    requires
        0 <= i <= s.len(),
        forall|k: int| 0 <= k < i ==> is_white_space(#[trigger] s[k]),
    ensures
        trim_start(s) == trim_start(s.subrange(i, s.len() as int)),
    decreases i,
{
    if i > 0 {
        lemma_trim_start_skip(s, i - 1);
        let t = s.subrange(i - 1, s.len() as int);
        assert(t.drop_first() =~= s.subrange(i, s.len() as int));
    } else {
        assert(s.subrange(0, s.len() as int) =~= s);
    }
}

/// Trailing white space can be dropped before trimming.
proof fn lemma_trim_end_drop(s: Seq<char>, j: int)
    requires
        0 <= j <= s.len(),
        forall|k: int| j <= k < s.len() ==> is_white_space(#[trigger] s[k]),
    ensures
        trim_end(s) == trim_end(s.subrange(0, j)),
    decreases s.len() - j,
{
    if j < s.len() {
        lemma_trim_end_drop(s, j + 1);
        let t = s.subrange(0, j + 1);
        assert(t.drop_last() =~= s.subrange(0, j));
    } else {
        assert(s.subrange(0, s.len() as int) =~= s);
    }
}

/// Trailing copies of `c` can be dropped before trimming them.
proof fn lemma_trim_end_matches_drop(s: Seq<char>, c: char, j: int)
    requires
        0 <= j <= s.len(),
        forall|k: int| j <= k < s.len() ==> #[trigger] s[k] == c,
    ensures
        trim_end_matches(s, c) == trim_end_matches(s.subrange(0, j), c),
    decreases s.len() - j,
{
    if j < s.len() {
        lemma_trim_end_matches_drop(s, c, j + 1);
        let t = s.subrange(0, j + 1);
        assert(t.drop_last() =~= s.subrange(0, j));
    } else {
        assert(s.subrange(0, s.len() as int) =~= s);
    }
}

/// Index of the first character of `s` that is not whitespace (or `s.len()`).
fn trim_start_index(s: &Vec<char>) -> (i: usize)
    ensures
        i <= s@.len(),
        trim_start(s@) == s@.subrange(i as int, s@.len() as int),
{
    let mut i: usize = 0;
    while i < s.len() && is_whitespace(s[i])
        invariant
            i <= s@.len(),
            forall|k: int| 0 <= k < i ==> is_white_space(#[trigger] s@[k]),
        decreases s@.len() - i,
    {
        i = i + 1;
    }
    proof {
        lemma_trim_start_skip(s@, i as int);
    }
    i
}

/// Index just past the last character of `s[..end]` that is not whitespace.
fn trim_end_index(s: &Vec<char>, end: usize) -> (j: usize)
    requires
        end <= s@.len(),
    ensures
        j <= end,
        trim_end(s@.subrange(0, end as int)) == s@.subrange(0, j as int),
{
    let ghost t = s@.subrange(0, end as int);
    let mut j: usize = end;
    while j > 0 && is_whitespace(s[j - 1])
        invariant
            j <= end <= s@.len(),
            t == s@.subrange(0, end as int),
            forall|k: int| j <= k < end ==> is_white_space(#[trigger] t[k]),
        decreases j,
    {
        j = j - 1;
    }
    proof {
        lemma_trim_end_drop(t, j as int);
        assert(t.subrange(0, j as int) =~= s@.subrange(0, j as int));
        lemma_trim_end_base(s@.subrange(0, j as int));
    }
    j
}

/// Trimming the start leaves nothing, or text that starts with no white
/// space.
proof fn lemma_trim_start_shape(s: Seq<char>)
    ensures
        trim_start(s).len() == 0 || !is_white_space(trim_start(s)[0]),
    decreases s.len(),
{
    if s.len() > 0 && is_white_space(s[0]) {
        lemma_trim_start_shape(s.drop_first());
    }
}

/// Trimming the end keeps a prefix, which is empty or ends in no white
/// space.
proof fn lemma_trim_end_shape(s: Seq<char>)
    ensures
        trim_end(s).len() <= s.len(),
        trim_end(s) == s.subrange(0, trim_end(s).len() as int),
        trim_end(s).len() == 0 || !is_white_space(trim_end(s).last()),
    decreases s.len(),
{
    if s.len() > 0 && is_white_space(s.last()) {
        lemma_trim_end_shape(s.drop_last());
        let t = trim_end(s.drop_last());
        assert(s.drop_last().subrange(0, t.len() as int) =~= s.subrange(0, t.len() as int));
    } else {
        assert(s.subrange(0, s.len() as int) =~= s);
    }
}

/// Trimmed text is its own trim.
pub proof fn law_trim_is_idempotent(s: Seq<char>)
    ensures
        trim(trim(s)) == trim(s),
{
    let y = trim_start(s);
    let z = trim_end(y);
    lemma_trim_start_shape(s);
    lemma_trim_end_shape(y);
    if z.len() > 0 {
        assert(z[0] == y[0]);
    }
    assert(trim_start(z) == z);
    lemma_trim_end_base(z);
}

/// Text that does not end in white space is its own trim.
proof fn lemma_trim_end_base(s: Seq<char>)
    requires
        s.len() == 0 || !is_white_space(s.last()),
    ensures
        trim_end(s) == s,
{
}

// ---------------------------------------------------------------------------
// Conversions between `str`, `String` and `Vec<char>`
// ---------------------------------------------------------------------------

/// The characters of `s`, in order.
pub fn str_chars(s: &str) -> (v: Vec<char>)
    ensures
        v@ == s@,
{
    let mut v: Vec<char> = Vec::new();
    for c in it: s.chars()
        invariant
            v@ == it.seq().take(it.index() as int),
            it.seq() == s@,
    {
        v.push(c);
    }
    v
}

/// `String::push`: appends one character to the string.
#[verifier::external_body]
pub(crate) fn push_char(s: &mut String, c: char)
    ensures
        final(s)@ == old(s)@.push(c),
{
    s.push(c);
}

/// Appends the characters of `v` to `s`.
pub fn push_chars(s: &mut String, v: &[char])
    ensures
        final(s)@ == old(s)@ + v@,
{
    let ghost start = s@;
    let mut i: usize = 0;
    while i < v.len()
        invariant
            i <= v@.len(),
            s@ == start + v@.subrange(0, i as int),
        decreases v@.len() - i,
    {
        push_char(s, v[i]);
        i = i + 1;
        assert(v@.subrange(0, i as int) =~= v@.subrange(0, i - 1).push(v@[i - 1]));
    }
    assert(v@.subrange(0, v@.len() as int) =~= v@);
}

/// Appends `t` to `s`.
pub fn push_str(s: &mut String, t: &str)
    ensures
        final(s)@ == old(s)@ + t@,
{
    let v = str_chars(t);
    push_chars(s, v.as_slice());
}

/// A `String` holding the characters `v`.
pub fn string_from_chars(v: &[char]) -> (s: String)
    ensures
        s@ == v@,
{
    let mut s = String::new();
    push_chars(&mut s, v);
    assert(s@ =~= v@);
    s
}

/// The characters `v[from..to]`.
pub fn sub_chars(v: &[char], from: usize, to: usize) -> (r: Vec<char>)
    requires
        from <= to <= v@.len(),
    ensures
        r@ == v@.subrange(from as int, to as int),
{
    let mut r: Vec<char> = Vec::new();
    let mut i = from;
    while i < to
        invariant
            from <= i <= to <= v@.len(),
            r@ == v@.subrange(from as int, i as int),
        decreases to - i,
    {
        r.push(v[i]);
        i = i + 1;
        assert(r@ =~= v@.subrange(from as int, i as int));
    }
    r
}

/// Appends the characters of `w` to `v`.
pub fn extend_chars(v: &mut Vec<char>, w: &[char])
    ensures
        final(v)@ == old(v)@ + w@,
{
    let ghost start = v@;
    let mut i: usize = 0;
    while i < w.len()
        invariant
            i <= w@.len(),
            v@ == start + w@.subrange(0, i as int),
        decreases w@.len() - i,
    {
        v.push(w[i]);
        i = i + 1;
        assert(v@ =~= start + w@.subrange(0, i as int));
    }
    assert(w@.subrange(0, w@.len() as int) =~= w@);
}

/// `s.trim()`: the text without leading and trailing whitespace.
pub fn trimmed(s: &str) -> (r: Vec<char>)
    ensures
        r@ == trim(s@),
{
    let v = str_chars(s);
    let i = trim_start_index(&v);
    let w = sub_chars(v.as_slice(), i, v.len());
    let j = trim_end_index(&w, w.len());
    assert(w@.subrange(0, w@.len() as int) =~= w@);
    sub_chars(w.as_slice(), 0, j)
}

/// `s.trim_end()` over characters.
pub fn trimmed_end(s: &[char]) -> (r: Vec<char>)
    ensures
        r@ == trim_end(s@),
{
    let v = sub_chars(s, 0, s.len());
    assert(v@ =~= s@);
    let j = trim_end_index(&v, v.len());
    assert(v@.subrange(0, v@.len() as int) =~= v@);
    sub_chars(v.as_slice(), 0, j)
}

/// `s.trim_end_matches(c)` over characters.
pub fn trimmed_end_matches(s: &[char], c: char) -> (r: Vec<char>)
    ensures
        r@ == trim_end_matches(s@, c),
{
    let mut j: usize = s.len();
    while j > 0 && s[j - 1] == c
        invariant
            j <= s@.len(),
            forall|k: int| j <= k < s@.len() ==> #[trigger] s@[k] == c,
        decreases j,
    {
        j = j - 1;
    }
    proof {
        lemma_trim_end_matches_drop(s@, c, j as int);
    }
    sub_chars(s, 0, j)
}

/// Whether `s` ends with the character `c`.
pub fn chars_end_with(s: &[char], c: char) -> (r: bool)
    ensures
        r == ends_with_char(s@, c),
{
    s.len() > 0 && s[s.len() - 1] == c
}


/// Whether `s` ends with `suffix`.
pub fn chars_end_with_chars(s: &[char], suffix: &[char]) -> (r: bool)
    ensures
        r == ends_with(s@, suffix@),
{
    if suffix.len() > s.len() {
        return false;
    }
    let off = s.len() - suffix.len();
    let mut k: usize = 0;
    while k < suffix.len()
        invariant
            off + suffix@.len() == s@.len(),
            s@.len() <= usize::MAX,
            k <= suffix@.len(),
            forall|j: int| 0 <= j < k ==> s@[off + j] == suffix@[j],
        decreases suffix@.len() - k,
    {
        if s[off + k] != suffix[k] {
            assert(s@.subrange(off as int, s@.len() as int)[k as int] != suffix@[k as int]);
            return false;
        }
        k = k + 1;
    }
    assert(s@.subrange(off as int, s@.len() as int) =~= suffix@);
    true
}

/// Whether the characters `a` and `b` are the same.
pub fn chars_eq(a: &[char], b: &[char]) -> (r: bool)
    ensures
        r == (a@ == b@),
{
    if a.len() != b.len() {
        return false;
    }
    let mut i: usize = 0;
    while i < a.len()
        invariant
            a@.len() == b@.len(),
            i <= a@.len(),
            forall|k: int| 0 <= k < i ==> a@[k] == b@[k],
        decreases a@.len() - i,
    {
        if a[i] != b[i] {
            return false;
        }
        i = i + 1;
    }
    assert(a@ =~= b@);
    true
}

// ---------------------------------------------------------------------------
// Decimal numerals
// ---------------------------------------------------------------------------

/// The decimal digit for `d` (`d < 10`).
pub open spec fn digit_char(d: nat) -> char {
    if d == 0 {
        '0'
    } else if d == 1 {
        '1'
    } else if d == 2 {
        '2'
    } else if d == 3 {
        '3'
    } else if d == 4 {
        '4'
    } else if d == 5 {
        '5'
    } else if d == 6 {
        '6'
    } else if d == 7 {
        '7'
    } else if d == 8 {
        '8'
    } else {
        '9'
    }
}

/// The decimal numeral of `n`, without leading zeros.
pub open spec fn decimal(n: nat) -> Seq<char>
    decreases n,
{
    if n < 10 {
        seq![digit_char(n)]
    } else {
        decimal(n / 10).push(digit_char(n % 10))
    }
}

/// Whether `c` is an ASCII decimal digit.
pub open spec fn is_digit(c: char) -> bool {
    '0' <= c <= '9'
}

/// The value of the digit `c`.
pub open spec fn digit_value(c: char) -> nat {
    (c as u32 - '0' as u32) as nat
}

/// Whether every character of `s` is an ASCII decimal digit.
pub open spec fn all_digits(s: Seq<char>) -> bool {
    forall|k: int| 0 <= k < s.len() ==> is_digit(#[trigger] s[k])
}

/// The value of the decimal digits `s`.
pub open spec fn digits_value(s: Seq<char>) -> nat
    decreases s.len(),
{
    if s.len() == 0 {
        0
    } else {
        digits_value(s.drop_last()) * 10 + digit_value(s.last())
    }
}

/// What `str::parse::<usize>` yields: an optional `+`, then one or more
/// decimal digits whose value fits in a `usize`.
pub open spec fn parse_usize(s: Seq<char>) -> Option<usize> {
    let d = if s.len() > 0 && s[0] == '+' {
        s.drop_first()
    } else {
        s
    };
    parse_digits(d)
}

/// The value of the decimal digits `d`, when there is at least one, all are
/// digits, and the value fits in a `usize`.
pub open spec fn parse_digits(d: Seq<char>) -> Option<usize> {
    if d.len() == 0 || !all_digits(d) || digits_value(d) > usize::MAX {
        None
    } else {
        Some(digits_value(d) as usize)
    }
}

/// The digit character for `d`.
fn digit(d: usize) -> (c: char)
    requires
        d < 10,
    ensures
        c == digit_char(d as nat),
{
    if d == 0 {
        '0'
    } else if d == 1 {
        '1'
    } else if d == 2 {
        '2'
    } else if d == 3 {
        '3'
    } else if d == 4 {
        '4'
    } else if d == 5 {
        '5'
    } else if d == 6 {
        '6'
    } else if d == 7 {
        '7'
    } else if d == 8 {
        '8'
    } else {
        '9'
    }
}

/// Appends the decimal numeral of `n`.
pub fn push_decimal(out: &mut Vec<char>, n: usize)
    ensures
        final(out)@ == old(out)@ + decimal(n as nat),
    decreases n,
{
    if n >= 10 {
        push_decimal(out, n / 10);
    }
    out.push(digit(n % 10));
    assert(final(out)@ =~= old(out)@ + decimal(n as nat));
}

/// The decimal numeral of `n`.
pub fn decimal_chars(n: usize) -> (r: Vec<char>)
    ensures
        r@ == decimal(n as nat),
{
    let mut r: Vec<char> = Vec::new();
    push_decimal(&mut r, n);
    assert(r@ =~= decimal(n as nat));
    r
}

/// A prefix of a run of digits is worth no more than the whole run.
proof fn lemma_digits_value_prefix(s: Seq<char>, k: int)
    requires
        0 <= k <= s.len(),
    ensures
        digits_value(s.subrange(0, k)) <= digits_value(s),
    decreases s.len() - k,
{
    if k < s.len() {
        lemma_digits_value_prefix(s, k + 1);
        assert(s.subrange(0, k + 1).drop_last() =~= s.subrange(0, k));
    } else {
        assert(s.subrange(0, k) =~= s);
    }
}

/// `str::parse::<usize>` over characters.
pub fn parse_usize_chars(s: &[char]) -> (r: Option<usize>)
    ensures
        r == parse_usize(s@),
{
    let start: usize = if s.len() > 0 && s[0] == '+' {
        1
    } else {
        0
    };
    let ghost d = if s@.len() > 0 && s@[0] == '+' {
        s@.drop_first()
    } else {
        s@
    };
    assert(d =~= s@.subrange(start as int, s@.len() as int));
    if start >= s.len() {
        return None;
    }
    let mut acc: usize = 0;
    let mut i: usize = start;
    while i < s.len()
        invariant
            start <= i <= s@.len(),
            start < s@.len(),
            d == s@.subrange(start as int, s@.len() as int),
            parse_usize(s@) == parse_digits(d),
            acc == digits_value(s@.subrange(start as int, i as int)),
            forall|k: int| start <= k < i ==> is_digit(#[trigger] s@[k]),
        decreases s@.len() - i,
    {
        let c = s[i];
        if !('0' <= c && c <= '9') {
            assert(d[i - start] == c);
            assert(!is_digit(d[i - start]));
            return None;
        }
        let dv = (c as u32 - '0' as u32) as usize;
        let ghost pre = s@.subrange(start as int, i + 1);
        assert(pre.drop_last() =~= s@.subrange(start as int, i as int));
        match acc.checked_mul(10) {
            None => {
                proof {
                    lemma_digits_value_prefix(d, i + 1 - start);
                    assert(d.subrange(0, i + 1 - start) =~= pre);
                }
                return None;
            },
            Some(m) => match m.checked_add(dv) {
                None => {
                    proof {
                        lemma_digits_value_prefix(d, i + 1 - start);
                        assert(d.subrange(0, i + 1 - start) =~= pre);
                    }
                    return None;
                },
                Some(v) => {
                    acc = v;
                },
            },
        }
        i = i + 1;
    }
    assert(d =~= s@.subrange(start as int, i as int));
    Some(acc)
}


// ---------------------------------------------------------------------------
// Searching, splitting, replacing
// ---------------------------------------------------------------------------

/// Whether `pat` occurs in `s` at position `i`.
pub open spec fn matches_at(s: Seq<char>, i: int, pat: Seq<char>) -> bool {
    0 <= i && i + pat.len() <= s.len() && s.subrange(i, i + pat.len()) == pat
}

/// The first position at or after `i` where `pat` occurs in `s`.
pub open spec fn find_from(s: Seq<char>, pat: Seq<char>, i: int) -> Option<int>
    decreases s.len() + 1 - i,
{
    if i < 0 || i + pat.len() > s.len() {
        None
    } else if matches_at(s, i, pat) {
        Some(i)
    } else {
        find_from(s, pat, i + 1)
    }
}

/// Whether `pat` occurs in `s` (`str::contains`).
pub open spec fn contains(s: Seq<char>, pat: Seq<char>) -> bool {
    find_from(s, pat, 0) is Some
}

/// The text before and after the first `pat` in `s` (`str::split_once`).
pub open spec fn split_once(s: Seq<char>, pat: Seq<char>) -> Option<(Seq<char>, Seq<char>)> {
    match find_from(s, pat, 0) {
        Some(i) => Some((s.subrange(0, i), s.subrange(i + pat.len(), s.len() as int))),
        None => None,
    }
}

/// The last position before `j` where `c` stands in `s`.
pub open spec fn rfind_before(s: Seq<char>, c: char, j: int) -> Option<int>
    decreases j,
{
    if j <= 0 || j > s.len() {
        None
    } else if s[j - 1] == c {
        Some(j - 1)
    } else {
        rfind_before(s, c, j - 1)
    }
}

/// The text before and after the last `c` in `s` (`str::rsplit_once`).
pub open spec fn rsplit_once(s: Seq<char>, c: char) -> Option<(Seq<char>, Seq<char>)> {
    match rfind_before(s, c, s.len() as int) {
        Some(i) => Some((s.subrange(0, i), s.subrange(i + 1, s.len() as int))),
        None => None,
    }
}

/// A match found from `i` starts at or after `i`, and is a match.
pub proof fn lemma_find_from(s: Seq<char>, pat: Seq<char>, i: int)
    ensures
        find_from(s, pat, i) matches Some(k) ==> i <= k && matches_at(s, k, pat),
    decreases s.len() + 1 - i,
{
    if !(i < 0 || i + pat.len() > s.len()) && !matches_at(s, i, pat) {
        lemma_find_from(s, pat, i + 1);
    }
}

/// `s` with every occurrence of `from` replaced by `to`, left to right
/// (`str::replace`); an empty `from` matches before every character and at
/// the end.
pub open spec fn replace_all(s: Seq<char>, from: Seq<char>, to: Seq<char>) -> Seq<char>
    decreases s.len(),
{
    if from.len() == 0 {
        replace_empty(s, to)
    } else {
        match find_from(s, from, 0) {
            None => s,
            Some(i) => {
                proof {
                    lemma_find_from(s, from, 0);
                }
                s.subrange(0, i) + to + replace_all(
                    s.subrange(i + from.len(), s.len() as int),
                    from,
                    to,
                )
            },
        }
    }
}

/// `to` before every character of `s` and at its end.
pub open spec fn replace_empty(s: Seq<char>, to: Seq<char>) -> Seq<char>
    decreases s.len(),
{
    if s.len() == 0 {
        to
    } else {
        to + seq![s[0]] + replace_empty(s.drop_first(), to)
    }
}

/// `s` without a trailing `\r`.
pub open spec fn strip_cr(s: Seq<char>) -> Seq<char> {
    if ends_with_char(s, '\r') {
        s.drop_last()
    } else {
        s
    }
}

/// The lines of `s` (`str::lines`): split at `\n`, a `\r` before the `\n`
/// dropped, and no empty last line after a final line feed.
pub open spec fn lines(s: Seq<char>) -> Seq<Seq<char>>
    decreases s.len(),
{
    if s.len() == 0 {
        Seq::empty()
    } else {
        match find_from(s, seq!['\n'], 0) {
            None => seq![s],
            Some(i) => {
                proof {
                    lemma_find_from(s, seq!['\n'], 0);
                }
                seq![strip_cr(s.subrange(0, i))] + lines(s.subrange(i + 1, s.len() as int))
            },
        }
    }
}

/// Whether `pat` occurs in `s` at `i`.
fn matches_at_exec(s: &[char], i: usize, pat: &[char]) -> (r: bool)
    ensures
        r == matches_at(s@, i as int, pat@),
{
    if i > s.len() || pat.len() > s.len() - i {
        return false;
    }
    let mut k: usize = 0;
    while k < pat.len()
        invariant
            i + pat@.len() <= s@.len() <= usize::MAX,
            k <= pat@.len(),
            forall|j: int| 0 <= j < k ==> s@[i + j] == pat@[j],
        decreases pat@.len() - k,
    {
        if s[i + k] != pat[k] {
            assert(s@.subrange(i as int, i + pat@.len())[k as int] != pat@[k as int]);
            return false;
        }
        k = k + 1;
    }
    assert(s@.subrange(i as int, i + pat@.len()) =~= pat@);
    true
}

/// The first position at or after `from` where `pat` occurs in `s`.
pub fn find_chars(s: &[char], pat: &[char], from: usize) -> (r: Option<usize>)
    ensures
        match r {
            Some(k) => find_from(s@, pat@, from as int) == Some(k as int),
            None => find_from(s@, pat@, from as int) is None,
        },
{
    if from > s.len() {
        return None;
    }
    let mut i = from;
    loop
        invariant
            from <= i <= s@.len(),
            find_from(s@, pat@, i as int) == find_from(s@, pat@, from as int),
        decreases s@.len() - i,
    {
        if pat.len() > s.len() - i {
            return None;
        }
        if matches_at_exec(s, i, pat) {
            return Some(i);
        }
        assert(i < s@.len()) by {
            if i == s@.len() {
                assert(s@.subrange(i as int, i as int) =~= pat@);
            }
        }
        i = i + 1;
    }
}

/// The text before and after the first `pat` in `s`.
pub fn split_once_chars(s: &[char], pat: &[char]) -> (r: Option<(Vec<char>, Vec<char>)>)
    ensures
        match r {
            Some((a, b)) => split_once(s@, pat@) == Some((a@, b@)),
            None => split_once(s@, pat@) is None,
        },
{
    let len = s.len();
    match find_chars(s, pat, 0) {
        Some(i) => {
            proof {
                lemma_find_from(s@, pat@, 0);
            }
            Some((sub_chars(s, 0, i), sub_chars(s, i + pat.len(), len)))
        },
        None => None,
    }
}

/// The text before and after the last `c` in `s`.
pub fn rsplit_once_chars(s: &[char], c: char) -> (r: Option<(Vec<char>, Vec<char>)>)
    ensures
        match r {
            Some((a, b)) => rsplit_once(s@, c) == Some((a@, b@)),
            None => rsplit_once(s@, c) is None,
        },
{
    let mut j = s.len();
    while j > 0 && s[j - 1] != c
        invariant
            j <= s@.len(),
            rfind_before(s@, c, j as int) == rfind_before(s@, c, s@.len() as int),
        decreases j,
    {
        j = j - 1;
    }
    if j == 0 {
        None
    } else {
        Some((sub_chars(s, 0, j - 1), sub_chars(s, j, s.len())))
    }
}

/// `s` with every occurrence of `from` replaced by `to`.
pub fn replace_chars(s: &[char], from: &[char], to: &[char]) -> (r: Vec<char>)
    ensures
        r@ == replace_all(s@, from@, to@),
{
    let mut out: Vec<char> = Vec::new();
    if from.len() == 0 {
        assert(s@.subrange(0, s@.len() as int) =~= s@);
        let mut i: usize = 0;
        while i < s.len()
            invariant
                i <= s@.len(),
                from@.len() == 0,
                out@ + replace_empty(s@.subrange(i as int, s@.len() as int), to@) == replace_all(
                    s@,
                    from@,
                    to@,
                ),
            decreases s@.len() - i,
        {
            let ghost rest = s@.subrange(i as int, s@.len() as int);
            assert(rest.drop_first() =~= s@.subrange(i + 1, s@.len() as int));
            extend_chars(&mut out, to);
            out.push(s[i]);
            i = i + 1;
            assert(out@ + replace_empty(s@.subrange(i as int, s@.len() as int), to@) =~= replace_all(
                s@,
                from@,
                to@,
            ));
        }
        extend_chars(&mut out, to);
        return out;
    }
    let mut rest = sub_chars(s, 0, s.len());
    assert(rest@ =~= s@);
    loop
        invariant
            from@.len() > 0,
            out@ + replace_all(rest@, from@, to@) == replace_all(s@, from@, to@),
        decreases rest@.len(),
    {
        let rest_len = rest.len();
        match find_chars(rest.as_slice(), from, 0) {
            None => {
                extend_chars(&mut out, rest.as_slice());
                return out;
            },
            Some(i) => {
                proof {
                    lemma_find_from(rest@, from@, 0);
                }
                let before = sub_chars(rest.as_slice(), 0, i);
                let after = sub_chars(rest.as_slice(), i + from.len(), rest_len);
                extend_chars(&mut out, before.as_slice());
                extend_chars(&mut out, to);
                rest = after;
                assert(out@ + replace_all(rest@, from@, to@) =~= replace_all(s@, from@, to@));
            },
        }
    }
}

/// The lines of `s`.
pub fn split_lines(s: &[char]) -> (r: Vec<Vec<char>>)
    ensures
        r@.map_values(|l: Vec<char>| l@) == lines(s@),
{
    let mut out: Vec<Vec<char>> = Vec::new();
    let mut rest = sub_chars(s, 0, s.len());
    assert(rest@ =~= s@);
    let nl = ['\n'];
    assert(nl@ =~= seq!['\n']);
    while rest.len() > 0
        invariant
            nl@ == seq!['\n'],
            out@.map_values(|l: Vec<char>| l@) + lines(rest@) == lines(s@),
        decreases rest@.len(),
    {
        match find_chars(rest.as_slice(), nl.as_slice(), 0) {
            None => {
                let ghost o = out@;
                let ghost rv = rest@;
                assert(lines(rv) == seq![rv]);
                out.push(rest);
                assert(out@.map_values(|l: Vec<char>| l@) =~= o.map_values(|l: Vec<char>| l@)
                    + seq![rv]);
                return out;
            },
            Some(i) => {
                proof {
                    lemma_find_from(rest@, seq!['\n'], 0);
                }
                let mut line = sub_chars(rest.as_slice(), 0, i);
                if line.len() > 0 && line[line.len() - 1] == '\r' {
                    line.pop();
                }
                let after = sub_chars(rest.as_slice(), i + 1, rest.len());
                let ghost o = out@;
                let ghost l = line@;
                assert(l == strip_cr(rest@.subrange(0, i as int)));
                out.push(line);
                assert(out@.map_values(|l: Vec<char>| l@) =~= o.map_values(|l: Vec<char>| l@)
                    + seq![l]);
                rest = after;
                assert(out@.map_values(|l: Vec<char>| l@) + lines(rest@) =~= lines(s@));
            },
        }
    }
    assert(lines(rest@) =~= Seq::<Seq<char>>::empty());
    assert(out@.map_values(|l: Vec<char>| l@) =~= lines(s@));
    out
}


// ---------------------------------------------------------------------------
// Laws
// ---------------------------------------------------------------------------

/// The character of a decimal digit is a digit.
proof fn lemma_digit_char(d: nat)
    requires
        d < 10,
    ensures
        is_digit(digit_char(d)),
        digit_value(digit_char(d)) == d,
        digit_char(d) != '+',
        digit_char(d) != ':',
{
}

/// A decimal numeral is made of digits and spells its number.
pub proof fn lemma_decimal_digits(n: nat)
    ensures
        decimal(n).len() >= 1,
        all_digits(decimal(n)),
        digits_value(decimal(n)) == n,
    decreases n,
{
    if n < 10 {
        lemma_digit_char(n);
        assert(decimal(n).drop_last() =~= Seq::<char>::empty());
        assert(digits_value(Seq::<char>::empty()) == 0);
        assert(digits_value(decimal(n)) == digits_value(decimal(n).drop_last()) * 10
            + digit_value(decimal(n).last()));
    } else {
        lemma_decimal_digits(n / 10);
        lemma_digit_char(n % 10);
        let d = decimal(n);
        assert(d.drop_last() =~= decimal(n / 10));
        assert(d.last() == digit_char(n % 10));
        assert(n == (n / 10) * 10 + n % 10) by (nonlinear_arith);
        assert(digits_value(d) == digits_value(d.drop_last()) * 10 + digit_value(d.last()));
        assert forall|k: int| 0 <= k < d.len() implies is_digit(#[trigger] d[k]) by {
            if k < d.len() - 1 {
                assert(d[k] == decimal(n / 10)[k]);
            }
        }
    }
}

/// Reading back the decimal numeral of a `usize` gives the number.
pub proof fn law_parse_reads_decimal(n: usize)
    ensures
        parse_usize(decimal(n as nat)) == Some(n),
{
    lemma_decimal_digits(n as nat);
    let d = decimal(n as nat);
    assert(is_digit(d[0]));
}

} // verus!
