//! Character sequences: the model every string contract of this crate is
//! stated over, and the executable helpers that compute on it.
use vstd::prelude::*;

verus! {

/// The views of a sequence of strings.
pub open spec fn views(v: Seq<String>) -> Seq<Seq<char>> {
    Seq::new(v.len(), |i: int| v[i]@)
}

/// The characters of a string slice, in order.
pub fn chars_of(s: &str) -> (out: Vec<char>)
    ensures
        out@ == s@,
{
    broadcast use vstd::string::group_string_axioms;

    let mut out: Vec<char> = Vec::new();
    for c in it: s.chars()
        invariant
            it.seq() == s@,
            out@ == it.seq().take(it.index()),
    {
        out.push(c);
    }
    assert(out@ == s@);
    out
}

/// The string made of the given characters.
pub fn string_of(chars: &Vec<char>) -> (out: String)
    ensures
        out@ == chars@,
{
    let mut out = String::new();
    let mut i: usize = 0;
    while i < chars.len()
        invariant
            i <= chars.len(),
            out@ == chars@.take(i as int),
        decreases chars.len() - i,
    {
        out.push(chars[i]);
        i += 1;
    }
    out
}

/// A copy of a string with the same characters.
pub fn copy_string(s: &String) -> (out: String)
    ensures
        out@ == s@,
{
    s.clone()
}

/// A copy of a list of strings, element by element.
pub fn copy_strings(v: &Vec<String>) -> (out: Vec<String>)
    ensures
        views(out@) == views(v@),
{
    let mut out: Vec<String> = Vec::new();
    let mut i: usize = 0;
    while i < v.len()
        invariant
            i <= v.len(),
            out@.len() == i,
            forall|j: int| 0 <= j < i ==> out@[j]@ == v@[j]@,
        decreases v.len() - i,
    {
        out.push(v[i].clone());
        i += 1;
    }
    assert(views(out@) =~= views(v@));
    out
}

/// Whether two lists of strings hold the same strings in the same order.
pub fn same_strings(a: &Vec<String>, b: &Vec<String>) -> (r: bool)
    ensures
        r == (views(a@) == views(b@)),
{
    if a.len() != b.len() {
        assert(views(a@).len() != views(b@).len());
        return false;
    }
    let mut i: usize = 0;
    while i < a.len()
        invariant
            i <= a.len(),
            a.len() == b.len(),
            forall|j: int| 0 <= j < i ==> a@[j]@ == b@[j]@,
        decreases a.len() - i,
    {
        if a[i] != b[i] {
            assert(views(a@)[i as int] != views(b@)[i as int]);
            return false;
        }
        i += 1;
    }
    assert(views(a@) =~= views(b@));
    true
}

/// Whether a list of strings holds the given string.
pub fn holds_string(list: &Vec<String>, s: &str) -> (r: bool)
    ensures
        r == views(list@).contains(s@),
{
    let mut i: usize = 0;
    while i < list.len()
        invariant
            i <= list.len(),
            forall|j: int| 0 <= j < i ==> list@[j]@ != s@,
        decreases list.len() - i,
    {
        if str_eq(list[i].as_str(), s) {
            assert(views(list@)[i as int] == s@);
            return true;
        }
        i += 1;
    }
    false
}

/// Whether two string slices hold the same characters.
pub fn str_eq(a: &str, b: &str) -> (r: bool)
    ensures
        r == (a@ == b@),
{
    let x = chars_of(a);
    let y = chars_of(b);
    chars_eq(&x, &y)
}

/// Whether two character lists are equal.
pub fn chars_eq(a: &Vec<char>, b: &Vec<char>) -> (r: bool)
    ensures
        r == (a@ == b@),
{
    if a.len() != b.len() {
        return false;
    }
    let mut i: usize = 0;
    while i < a.len()
        invariant
            i <= a.len(),
            a.len() == b.len(),
            forall|j: int| 0 <= j < i ==> a@[j] == b@[j],
        decreases a.len() - i,
    {
        if a[i] != b[i] {
            return false;
        }
        i += 1;
    }
    assert(a@ =~= b@);
    true
}

/// The concatenation of two strings.
pub fn concat(a: &str, b: &str) -> (out: String)
    ensures
        out@ == a@ + b@,
{
    let mut out = String::new();
    out.append(a);
    out.append(b);
    assert(out@ =~= a@ + b@);
    out
}

/// Unicode's White_Space property, by code point.
pub open spec fn is_whitespace(c: char) -> bool {
    ('\u{9}' <= c <= '\u{d}') || c == ' ' || c == '\u{85}' || c == '\u{a0}' || c == '\u{1680}' || (
    '\u{2000}' <= c <= '\u{200a}') || c == '\u{2028}' || c == '\u{2029}' || c == '\u{202f}' || c
        == '\u{205f}' || c == '\u{3000}'
}

/// Whether a character is whitespace.
pub fn whitespace(c: char) -> (r: bool)
    ensures
        r == is_whitespace(c),
{
    ('\u{9}' <= c && c <= '\u{d}') || c == ' ' || c == '\u{85}' || c == '\u{a0}' || c == '\u{1680}'
        || ('\u{2000}' <= c && c <= '\u{200a}') || c == '\u{2028}' || c == '\u{2029}' || c
        == '\u{202f}' || c == '\u{205f}' || c == '\u{3000}'
}

/// Unicode's control characters (general category Cc), by code point.
pub open spec fn is_control(c: char) -> bool {
    c <= '\u{1f}' || ('\u{7f}' <= c <= '\u{9f}')
}

/// Whether a character is a control character.
pub fn control(c: char) -> (r: bool)
    ensures
        r == is_control(c),
{
    c <= '\u{1f}' || ('\u{7f}' <= c && c <= '\u{9f}')
}

/// How many characters at the start of `s` satisfy `f`.
pub open spec fn leading_run(s: Seq<char>, f: spec_fn(char) -> bool) -> nat
    decreases s.len(),
{
    if s.len() > 0 && f(s[0]) {
        1 + leading_run(s.drop_first(), f)
    } else {
        0
    }
}

/// How many characters at the end of `s` satisfy `f`.
pub open spec fn trailing_run(s: Seq<char>, f: spec_fn(char) -> bool) -> nat
    decreases s.len(),
{
    if s.len() > 0 && f(s.last()) {
        1 + trailing_run(s.drop_last(), f)
    } else {
        0
    }
}

/// `leading_run` is the index of the first character that fails `f`.
pub proof fn lemma_leading_run(s: Seq<char>, f: spec_fn(char) -> bool, k: int)
    requires
        0 <= k <= s.len(),
        forall|i: int| 0 <= i < k ==> f(#[trigger] s[i]),
        k < s.len() ==> !f(s[k]),
    ensures
        leading_run(s, f) == k,
    decreases s.len(),
{
    if k > 0 {
        let t = s.drop_first();
        assert(forall|i: int| 0 <= i < k - 1 ==> t[i] == s[i + 1]);
        lemma_leading_run(t, f, k - 1);
    }
}

/// `trailing_run` counts back to the last character that fails `f`.
pub proof fn lemma_trailing_run(s: Seq<char>, f: spec_fn(char) -> bool, k: int)
    requires
        0 <= k <= s.len(),
        forall|i: int| s.len() - k <= i < s.len() ==> f(#[trigger] s[i]),
        k < s.len() ==> !f(s[s.len() - k - 1]),
    ensures
        trailing_run(s, f) == k,
    decreases s.len(),
{
    if k > 0 {
        let t = s.drop_last();
        assert(forall|i: int| 0 <= i < t.len() ==> t[i] == s[i]);
        lemma_trailing_run(t, f, k - 1);
    }
}

/// `s` without the whitespace at its start and at its end.
pub open spec fn trimmed(s: Seq<char>) -> Seq<char> {
    let a = leading_run(s, |c: char| is_whitespace(c));
    let b = trailing_run(s, |c: char| is_whitespace(c));
    if a + b >= s.len() {
        Seq::empty()
    } else {
        s.subrange(a as int, s.len() - b)
    }
}

/// Removes the whitespace at both ends.
pub fn trim(chars: &Vec<char>) -> (out: Vec<char>)
    ensures
        out@ == trimmed(chars@),
{
    let n = chars.len();
    let mut a: usize = 0;
    while a < n && whitespace(chars[a])
        invariant
            a <= n,
            n == chars.len(),
            forall|i: int| 0 <= i < a ==> is_whitespace(#[trigger] chars@[i]),
        decreases n - a,
    {
        a += 1;
    }
    let mut b: usize = n;
    while b > a && whitespace(chars[b - 1])
        invariant
            a <= b <= n,
            n == chars.len(),
            forall|i: int| b <= i < n ==> is_whitespace(#[trigger] chars@[i]),
        decreases b,
    {
        b -= 1;
    }
    proof {
        let f = |c: char| is_whitespace(c);
        lemma_leading_run(chars@, f, a as int);
        if a == n {
            assert(forall|i: int| 0 <= i < n ==> f(#[trigger] chars@[i]));
            lemma_trailing_run(chars@, f, n as int);
        } else {
            assert(b > a);
            lemma_trailing_run(chars@, f, n - b);
        }
    }
    let out = slice_of(chars, a, b);
    assert(out@ =~= trimmed(chars@));
    out
}

/// The characters of `chars` from index `from` up to, not including, `to`.
pub fn slice_of(chars: &Vec<char>, from: usize, to: usize) -> (out: Vec<char>)
    requires
        from <= to <= chars.len(),
    ensures
        out@ == chars@.subrange(from as int, to as int),
{
    let mut out: Vec<char> = Vec::new();
    let mut i: usize = from;
    while i < to
        invariant
            from <= i <= to <= chars.len(),
            out@ == chars@.subrange(from as int, i as int),
        decreases to - i,
    {
        out.push(chars[i]);
        i += 1;
    }
    out
}

/// Whether `p` occurs in `s` at index `i`.
pub open spec fn occurs_at(s: Seq<char>, p: Seq<char>, i: int) -> bool {
    0 <= i && i + p.len() <= s.len() && s.subrange(i, i + p.len()) == p
}

/// Whether `p` occurs in `s` at index `i`.
pub fn occurs(s: &Vec<char>, p: &Vec<char>, i: usize) -> (r: bool)
    ensures
        r == occurs_at(s@, p@, i as int),
{
    if p.len() > s.len() || i > s.len() - p.len() {
        return false;
    }
    let mut k: usize = 0;
    while k < p.len()
        invariant
            k <= p.len(),
            i + p.len() <= s.len(),
            forall|j: int| 0 <= j < k ==> s@[i + j] == p@[j],
        decreases p.len() - k,
    {
        if s[i + k] != p[k] {
            assert(s@.subrange(i as int, i + p.len())[k as int] != p@[k as int]);
            return false;
        }
        k += 1;
    }
    assert(s@.subrange(i as int, i + p.len()) =~= p@);
    true
}

/// Whether `s` begins with `p`.
pub fn starts_with(s: &str, p: &str) -> (r: bool)
    ensures
        r == occurs_at(s@, p@, 0),
{
    let x = chars_of(s);
    let y = chars_of(p);
    occurs(&x, &y, 0)
}

/// The least index at or after `from` at which `p` occurs in `s`, if any.
pub open spec fn first_occurrence(s: Seq<char>, p: Seq<char>, from: int) -> Option<int>
    decreases s.len() - from,
    when from >= 0
{
    if from + p.len() > s.len() {
        None
    } else if occurs_at(s, p, from) {
        Some(from)
    } else if from >= s.len() {
        None
    } else {
        first_occurrence(s, p, from + 1)
    }
}

/// What `first_occurrence` finds is an occurrence, and the first one.
pub proof fn lemma_first_occurrence(s: Seq<char>, p: Seq<char>, from: int)
    requires
        0 <= from,
    ensures
        match first_occurrence(s, p, from) {
            Some(i) => from <= i && occurs_at(s, p, i) && forall|j: int|
                from <= j < i ==> !occurs_at(s, p, j),
            None => forall|j: int| from <= j ==> !occurs_at(s, p, j),
        },
    decreases s.len() - from,
{
    if from + p.len() > s.len() {
    } else if occurs_at(s, p, from) {
    } else if from >= s.len() {
    } else {
        lemma_first_occurrence(s, p, from + 1);
    }
}

/// An occurrence with none before it, from `from` on, is the first.
pub proof fn lemma_first_occurrence_is(s: Seq<char>, p: Seq<char>, from: int, i: int)
    requires
        0 <= from <= i,
        occurs_at(s, p, i),
        forall|j: int| from <= j < i ==> !occurs_at(s, p, j),
    ensures
        first_occurrence(s, p, from) == Some(i),
    decreases i - from,
{
    if from < i {
        lemma_first_occurrence_is(s, p, from + 1, i);
    }
}

/// Searches `s` for `p`, starting at `from`.
pub fn find(s: &Vec<char>, p: &Vec<char>, from: usize) -> (r: Option<usize>)
    ensures
        match r {
            Some(i) => first_occurrence(s@, p@, from as int) == Some(i as int),
            None => first_occurrence(s@, p@, from as int) is None,
        },
{
    if p.len() > s.len() || from > s.len() - p.len() {
        return None;
    }
    let last = s.len() - p.len();
    let mut i: usize = from;
    loop
        invariant
            from <= i <= last,
            last == s.len() - p.len(),
            first_occurrence(s@, p@, from as int) == first_occurrence(s@, p@, i as int),
        decreases last - i,
    {
        if occurs(s, p, i) {
            return Some(i);
        }
        if i == last {
            assert(first_occurrence(s@, p@, i + 1) is None);
            return None;
        }
        i += 1;
    }
}

/// `s` with every `from` replaced by `to`.
pub open spec fn replaced(s: Seq<char>, from: char, to: char) -> Seq<char> {
    Seq::new(
        s.len(),
        |i: int|
            if s[i] == from {
                to
            } else {
                s[i]
            },
    )
}

/// Replaces every `from` by `to`.
pub fn replace_char(chars: &Vec<char>, from: char, to: char) -> (out: Vec<char>)
    ensures
        out@ == replaced(chars@, from, to),
{
    let mut out: Vec<char> = Vec::new();
    let mut i: usize = 0;
    while i < chars.len()
        invariant
            i <= chars.len(),
            out@.len() == i,
            forall|j: int| 0 <= j < i ==> out@[j] == replaced(chars@, from, to)[j],
        decreases chars.len() - i,
    {
        let c = chars[i];
        out.push(
            if c == from {
                to
            } else {
                c
            },
        );
        i += 1;
    }
    assert(out@ =~= replaced(chars@, from, to));
    out
}

/// Appends the characters of `more` to `out`.
pub fn extend(out: &mut Vec<char>, more: &Vec<char>)
    ensures
        final(out)@ == old(out)@ + more@,
{
    let mut i: usize = 0;
    while i < more.len()
        invariant
            i <= more.len(),
            out@ == old(out)@ + more@.take(i as int),
        decreases more.len() - i,
    {
        out.push(more[i]);
        assert(more@.take(i + 1) =~= more@.take(i as int).push(more@[i as int]));
        i += 1;
    }
    assert(more@.take(more.len() as int) =~= more@);
}

/// Lexicographic order on character sequences, by code point.
pub open spec fn seq_lt(a: Seq<char>, b: Seq<char>) -> bool
    decreases a.len(),
{
    if b.len() == 0 {
        false
    } else if a.len() == 0 {
        true
    } else if a[0] != b[0] {
        a[0] < b[0]
    } else {
        seq_lt(a.drop_first(), b.drop_first())
    }
}

/// The order has no two texts before each other.
pub proof fn lemma_seq_lt_asymmetric(a: Seq<char>, b: Seq<char>)
    requires
        seq_lt(a, b),
    ensures
        !seq_lt(b, a),
    decreases a.len(),
{
    if a.len() > 0 && b.len() > 0 && a[0] == b[0] {
        lemma_seq_lt_asymmetric(a.drop_first(), b.drop_first());
    }
}

/// "Not before" is transitive.
pub proof fn lemma_seq_ge_transitive(a: Seq<char>, b: Seq<char>, c: Seq<char>)
    requires
        !seq_lt(a, b),
        !seq_lt(b, c),
    ensures
        !seq_lt(a, c),
    decreases a.len(),
{
    if c.len() == 0 {
    } else if b.len() == 0 {
        assert(seq_lt(b, c));
    } else if a.len() == 0 {
        assert(seq_lt(a, b));
    } else if a[0] == b[0] && b[0] == c[0] {
        lemma_seq_ge_transitive(a.drop_first(), b.drop_first(), c.drop_first());
    }
}

/// Whether `a` comes strictly before `b` in lexicographic order.
pub fn chars_lt(a: &Vec<char>, b: &Vec<char>) -> (r: bool)
    ensures
        r == seq_lt(a@, b@),
{
    let mut i: usize = 0;
    assert(a@.skip(0) =~= a@ && b@.skip(0) =~= b@);
    while i < a.len() && i < b.len()
        invariant
            i <= a.len(),
            i <= b.len(),
            seq_lt(a@, b@) == seq_lt(a@.skip(i as int), b@.skip(i as int)),
        decreases a.len() - i,
    {
        proof {
            let x = a@.skip(i as int);
            let y = b@.skip(i as int);
            assert(x.drop_first() =~= a@.skip(i + 1));
            assert(y.drop_first() =~= b@.skip(i + 1));
        }
        if a[i] != b[i] {
            return a[i] < b[i];
        }
        i += 1;
    }
    i < b.len()
}

/// The decimal digits of `n`, most significant first.
pub open spec fn decimal(n: nat) -> Seq<char>
    decreases n,
{
    if n < 10 {
        seq![digit_char(n)]
    } else {
        decimal(n / 10).push(digit_char(n % 10))
    }
}

/// The character of a digit below ten.
pub open spec fn digit_char(d: nat) -> char {
    if d == 0 {
        '0'
    } else if d == 1 {
        '1'
    } else if d == 2 {
        '2'
    } else if d == 3 {
        '3'
    } else if d == 4 {
        '4'
    } else if d == 5 {
        '5'
    } else if d == 6 {
        '6'
    } else if d == 7 {
        '7'
    } else if d == 8 {
        '8'
    } else {
        '9'
    }
}

fn digit(d: u128) -> (c: char)
    requires
        d < 10,
    ensures
        c == digit_char(d as nat),
{
    if d == 0 {
        '0'
    } else if d == 1 {
        '1'
    } else if d == 2 {
        '2'
    } else if d == 3 {
        '3'
    } else if d == 4 {
        '4'
    } else if d == 5 {
        '5'
    } else if d == 6 {
        '6'
    } else if d == 7 {
        '7'
    } else if d == 8 {
        '8'
    } else {
        '9'
    }
}

/// Writes `n` in decimal.
pub fn to_decimal(n: u128) -> (out: Vec<char>)
    ensures
        out@ == decimal(n as nat),
    decreases n,
{
    if n < 10 {
        let mut out: Vec<char> = Vec::new();
        out.push(digit(n));
        assert(out@ =~= seq![digit_char(n as nat)]);
        out
    } else {
        let mut out = to_decimal(n / 10);
        out.push(digit(n % 10));
        out
    }
}

/// Different numbers have different decimal digits.
pub proof fn lemma_decimal_injective(a: nat, b: nat)
    requires
        decimal(a) == decimal(b),
    ensures
        a == b,
    decreases a,
{
    if a < 10 && b < 10 {
        assert(decimal(a)[0] == digit_char(a));
        assert(decimal(b)[0] == digit_char(b));
        lemma_digit_code(a);
        lemma_digit_code(b);
    } else if a >= 10 && b >= 10 {
        let x = decimal(a / 10);
        let y = decimal(b / 10);
        assert(decimal(a).last() == digit_char(a % 10));
        assert(decimal(b).last() == digit_char(b % 10));
        assert(decimal(a).drop_last() =~= x);
        assert(decimal(b).drop_last() =~= y);
        lemma_decimal_injective(a / 10, b / 10);
        lemma_digit_code(a % 10);
        lemma_digit_code(b % 10);
        assert(a % 10 == b % 10);
        assert(a / 10 == b / 10);
    } else {
        lemma_decimal_len(a);
        lemma_decimal_len(b);
    }
}

/// The code point of a digit's character.
pub proof fn lemma_digit_code(d: nat)
    requires
        d < 10,
    ensures
        digit_char(d) as u32 == 48 + d,
{
}

/// A number has one digit exactly when it is below ten.
pub proof fn lemma_decimal_len(n: nat)
    ensures
        decimal(n).len() >= 1,
        n >= 10 ==> decimal(n).len() >= 2,
    decreases n,
{
    if n >= 10 {
        lemma_decimal_len(n / 10);
    }
}

} // verus!
