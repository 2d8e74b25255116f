//! Character sequences: whitespace, trimming, splitting and unsigned decimals.
//!
//! Every executable function works on a slice of characters and is specified
//! over the sequence that the slice holds.

use vstd::prelude::*;
use vstd::slice::slice_subrange;

verus! {

/// Whether `c` has the Unicode property White_Space.
pub open spec fn is_whitespace(c: char) -> bool {
    ||| '\u{9}' <= c <= '\u{D}'
    ||| c == ' '
    ||| c == '\u{85}'
    ||| c == '\u{A0}'
    ||| c == '\u{1680}'
    ||| '\u{2000}' <= c <= '\u{200A}'
    ||| c == '\u{2028}'
    ||| c == '\u{2029}'
    ||| c == '\u{202F}'
    ||| c == '\u{205F}'
    ||| c == '\u{3000}'
}

/// Whether `c` is whitespace.
pub fn char_is_whitespace(c: char) -> (b: bool)
    ensures
        b == is_whitespace(c),
{
    ('\u{9}' <= c && c <= '\u{D}') || c == ' ' || c == '\u{85}' || c == '\u{A0}' || c
        == '\u{1680}' || ('\u{2000}' <= c && c <= '\u{200A}') || c == '\u{2028}' || c
        == '\u{2029}' || c == '\u{202F}' || c == '\u{205F}' || c == '\u{3000}'
}

/// A set of characters that a scan can stop at.
#[derive(Clone, Copy, Debug)]
pub enum CharClass {
    /// One given character.
    Exactly(char),
    /// Every whitespace character.
    Space,
    /// Every character that is not whitespace.
    NonSpace,
}

impl CharClass {
    /// Whether `c` belongs to the class.
    pub open spec fn has(self, c: char) -> bool {
        match self {
            CharClass::Exactly(d) => c == d,
            CharClass::Space => is_whitespace(c),
            CharClass::NonSpace => !is_whitespace(c),
        }
    }

    /// Whether `c` belongs to the class.
    pub fn contains(&self, c: char) -> (b: bool)
        ensures
            b == self.has(c),
    {
        match self {
            CharClass::Exactly(d) => c == *d,
            CharClass::Space => char_is_whitespace(c),
            CharClass::NonSpace => !char_is_whitespace(c),
        }
    }
}

/// The index of the first character of `s` that belongs to `class`, or the
/// length of `s` when none does.
pub open spec fn first_in(s: Seq<char>, class: CharClass) -> nat
    decreases s.len(),
{
    if s.len() == 0 || class.has(s[0]) {
        0
    } else {
        1 + first_in(s.drop_first(), class)
    }
}

/// `first_in` is the one index with no member of the class before it and a
/// member, or the end, at it.
pub proof fn lemma_first_in_unique(s: Seq<char>, class: CharClass, i: int)
    requires
        0 <= i <= s.len(),
        forall|j: int| 0 <= j < i ==> !class.has(s[j]),
        i < s.len() ==> class.has(s[i]),
    ensures
        first_in(s, class) == i,
    decreases i,
{
    if i > 0 {
        let t = s.drop_first();
        assert forall|j: int| 0 <= j < i - 1 implies !class.has(t[j]) by {
            assert(t[j] == s[j + 1]);
        }
        lemma_first_in_unique(t, class, i - 1);
    }
}

/// `first_in` is an index of `s` or its length; no character before it
/// belongs to the class, and the character at it does.
pub proof fn lemma_first_in_bounds(s: Seq<char>, class: CharClass)
    ensures
        0 <= first_in(s, class) <= s.len(),
        forall|j: int| 0 <= j < first_in(s, class) ==> !class.has(#[trigger] s[j]),
        first_in(s, class) < s.len() ==> class.has(s[first_in(s, class) as int]),
    decreases s.len(),
{
    if s.len() == 0 || class.has(s[0]) {
    } else {
        let t = s.drop_first();
        lemma_first_in_bounds(t, class);
        assert forall|j: int| 0 <= j < first_in(s, class) implies !class.has(#[trigger] s[j]) by {
            if j > 0 {
                assert(s[j] == t[j - 1]);
            }
        }
    }
}

/// The index of the first character of `s` that belongs to `class`, or the
/// length of `s` when none does.
pub fn find_first(s: &[char], class: CharClass) -> (i: usize)
    ensures
        i == first_in(s@, class),
        i <= s@.len(),
{
    let mut i: usize = 0;
    while i < s.len() && !class.contains(s[i])
        invariant
            i <= s@.len(),
            forall|j: int| 0 <= j < i ==> !class.has(s@[j]),
        decreases s@.len() - i,
    {
        i += 1;
    }
    proof {
        lemma_first_in_unique(s@, class, i as int);
    }
    i
}

/// `s` without the whitespace at its end.
pub open spec fn trim_end(s: Seq<char>) -> Seq<char>
    decreases s.len(),
{
    if s.len() > 0 && is_whitespace(s.last()) {
        trim_end(s.drop_last())
    } else {
        s
    }
}

/// `s` without the whitespace at its start.
pub open spec fn trim_start(s: Seq<char>) -> Seq<char> {
    s.subrange(first_in(s, CharClass::NonSpace) as int, s.len() as int)
}

/// `s` without the whitespace at either end.
pub open spec fn trim(s: Seq<char>) -> Seq<char> {
    trim_end(trim_start(s))
}

/// Where the trimmed part of `s` starts and ends.
pub fn trim_bounds(s: &[char]) -> (r: (usize, usize))
    ensures
        r.0 <= r.1 <= s@.len(),
        s@.subrange(r.0 as int, r.1 as int) == trim(s@),
{
    let a: usize = find_first(s, CharClass::NonSpace);
    let mut b: usize = s.len();
    while b > a && char_is_whitespace(s[b - 1])
        invariant
            a <= b <= s@.len(),
            trim_end(s@.subrange(a as int, b as int)) == trim(s@),
        decreases b,
    {
        proof {
            let cur = s@.subrange(a as int, b as int);
            assert(cur.last() == s@[b - 1]);
            assert(cur.drop_last() == s@.subrange(a as int, b - 1));
        }
        b -= 1;
    }
    proof {
        let cur = s@.subrange(a as int, b as int);
        if cur.len() > 0 {
            assert(cur.last() == s@[b - 1]);
        }
    }
    (a, b)
}

/// `s` without the whitespace at either end.
pub fn trim_slice(s: &[char]) -> (t: &[char])
    ensures
        t@ == trim(s@),
{
    let (a, b) = trim_bounds(s);
    slice_subrange(s, a, b)
}

/// The pieces of `s` between the occurrences of `sep`: one more than there
/// are occurrences, each possibly empty.
pub open spec fn split(s: Seq<char>, sep: char) -> Seq<Seq<char>>
    decreases s.len(),
{
    let i = first_in(s, CharClass::Exactly(sep)) as int;
    if i >= s.len() {
        seq![s]
    } else {
        proof {
            lemma_first_in_bounds(s, CharClass::Exactly(sep));
        }
        seq![s.subrange(0, i)] + split(s.subrange(i + 1, s.len() as int), sep)
    }
}

/// A text splits into at least one piece, and the first piece is the text
/// up to its first separator.
pub proof fn lemma_split_nonempty(s: Seq<char>, sep: char)
    ensures
        split(s, sep).len() >= 1,
        split(s, sep)[0] == s.subrange(0, first_in(s, CharClass::Exactly(sep)) as int),
    decreases s.len(),
{
    let i = first_in(s, CharClass::Exactly(sep)) as int;
    lemma_first_in_bounds(s, CharClass::Exactly(sep));
    if i >= s.len() {
        assert(s.subrange(0, i) == s);
    } else {
        lemma_split_nonempty(s.subrange(i + 1, s.len() as int), sep);
    }
}

/// The first piece of `s` before `sep`, and what follows that separator if
/// there is one.
pub fn split_first(s: &[char], sep: char) -> (r: (&[char], Option<&[char]>))
    ensures
        match r.1 {
            Some(rest) => {
                &&& first_in(s@, CharClass::Exactly(sep)) < s@.len()
                &&& rest@ == s@.subrange(
                    first_in(s@, CharClass::Exactly(sep)) as int + 1,
                    s@.len() as int,
                )
                &&& split(s@, sep) == seq![r.0@] + split(rest@, sep)
            },
            None => {
                &&& first_in(s@, CharClass::Exactly(sep)) == s@.len()
                &&& split(s@, sep) == seq![r.0@]
            },
        },
        r.0@ == s@.subrange(0, first_in(s@, CharClass::Exactly(sep)) as int),
{
    let i: usize = find_first(s, CharClass::Exactly(sep));
    let head = slice_subrange(s, 0, i);
    if i == s.len() {
        assert(head@ == s@);
        (head, None)
    } else {
        let rest = slice_subrange(s, i + 1, s.len());
        (head, Some(rest))
    }
}

/// The maximal runs of characters of `s` that are not whitespace, in order.
pub open spec fn words(s: Seq<char>) -> Seq<Seq<char>>
    decreases s.len(),
{
    let a = first_in(s, CharClass::NonSpace) as int;
    if a >= s.len() {
        Seq::empty()
    } else {
        let b = a + first_in(s.subrange(a, s.len() as int), CharClass::Space);
        proof {
            lemma_first_in_bounds(s, CharClass::NonSpace);
            lemma_first_in_bounds(s.subrange(a, s.len() as int), CharClass::Space);
            assert(s.subrange(a, s.len() as int)[0] == s[a]);
        }
        seq![s.subrange(a, b)] + words(s.subrange(b, s.len() as int))
    }
}

/// The first word of `s` and what follows it, or `None` when `s` holds
/// nothing but whitespace.
pub fn next_word(s: &[char]) -> (r: Option<(&[char], &[char])>)
    ensures
        match r {
            Some((word, rest)) => {
                &&& words(s@) == seq![word@] + words(rest@)
                &&& word@.len() > 0
                &&& rest@.len() < s@.len()
            },
            None => words(s@) == Seq::<Seq<char>>::empty(),
        },
{
    let a: usize = find_first(s, CharClass::NonSpace);
    if a >= s.len() {
        return None;
    }
    let tail = slice_subrange(s, a, s.len());
    let len: usize = find_first(tail, CharClass::Space);
    proof {
        lemma_first_in_bounds(s@, CharClass::NonSpace);
        lemma_first_in_bounds(tail@, CharClass::Space);
        assert(tail@[0] == s@[a as int]);
        assert(tail@.subrange(0, len as int) == s@.subrange(a as int, a + len));
        assert(tail@.subrange(len as int, tail@.len() as int) == s@.subrange(
            a + len,
            s@.len() as int,
        ));
    }
    let word = slice_subrange(tail, 0, len);
    let rest = slice_subrange(tail, len, tail.len());
    Some((word, rest))
}

/// Whether `c` is one of the ten decimal digits.
pub open spec fn is_digit(c: char) -> bool {
    '0' <= c <= '9'
}

/// The number that the digits of `s` write in base ten.
pub open spec fn decimal_value(s: Seq<char>) -> nat
    decreases s.len(),
{
    if s.len() == 0 {
        0
    } else {
        10 * decimal_value(s.drop_last()) + (s.last() as nat - '0' as nat) as nat
    }
}

/// Whether `s` is one or more decimal digits.
pub open spec fn is_digits(s: Seq<char>) -> bool {
    s.len() > 0 && forall|i: int| 0 <= i < s.len() ==> is_digit(#[trigger] s[i])
}

/// `s` without one plus sign at its start, if it has one.
pub open spec fn unsigned_body(s: Seq<char>) -> Seq<char> {
    if s.len() > 0 && s[0] == '+' {
        s.subrange(1, s.len() as int)
    } else {
        s
    }
}

/// The number at most `max` that `s` writes: an optional plus sign, then one
/// or more decimal digits and nothing else.
pub open spec fn parse_unsigned(s: Seq<char>, max: nat) -> Option<nat> {
    let body = unsigned_body(s);
    if is_digits(body) && decimal_value(body) <= max {
        Some(decimal_value(body))
    } else {
        None
    }
}

/// The 64-bit number that `s` writes.
pub open spec fn parse_u64_spec(s: Seq<char>) -> Option<u64> {
    match parse_unsigned(s, u64::MAX as nat) {
        Some(n) => Some(n as u64),
        None => None,
    }
}

/// The 32-bit number that `s` writes.
pub open spec fn parse_u32_spec(s: Seq<char>) -> Option<u32> {
    match parse_unsigned(s, u32::MAX as nat) {
        Some(n) => Some(n as u32),
        None => None,
    }
}

/// A prefix of digits writes no more than the whole.
pub proof fn lemma_decimal_value_prefix(s: Seq<char>, k: int)
    requires
        0 <= k <= s.len(),
    ensures
        decimal_value(s.subrange(0, k)) <= decimal_value(s),
    decreases s.len() - k,
{
    if k == s.len() {
        assert(s.subrange(0, k) == s);
    } else {
        assert(s.drop_last().subrange(0, k) == s.subrange(0, k));
        lemma_decimal_value_prefix(s.drop_last(), k);
    }
}

/// The 64-bit number that `s` writes: an optional plus sign, then digits and
/// nothing else, and a value that fits.
pub fn parse_u64(s: &[char]) -> (r: Option<u64>)
    ensures
        r == parse_u64_spec(s@),
{
    let start: usize = if s.len() > 0 && s[0] == '+' {
        1
    } else {
        0
    };
    let body = slice_subrange(s, start, s.len());
    if body.len() == 0 {
        return None;
    }
    let mut acc: u64 = 0;
    let mut i: usize = 0;
    while i < body.len()
        invariant
            i <= body@.len(),
            body@ == unsigned_body(s@),
            forall|j: int| 0 <= j < i ==> is_digit(body@[j]),
            acc == decimal_value(body@.subrange(0, i as int)),
        decreases body@.len() - i,
    {
        let c: char = body[i];
        if !('0' <= c && c <= '9') {
            return None;
        }
        let d: u64 = (c as u64) - ('0' as u64);
        proof {
            let next = body@.subrange(0, i + 1);
            assert(next.drop_last() == body@.subrange(0, i as int));
            assert(next.last() == c);
            lemma_decimal_value_prefix(body@, i + 1);
        }
        if acc > (u64::MAX - d) / 10 {
            return None;
        }
        acc = acc * 10 + d;
        i += 1;
    }
    assert(body@.subrange(0, i as int) == body@);
    Some(acc)
}

/// The 32-bit number that `s` writes: an optional plus sign, then digits and
/// nothing else, and a value that fits.
pub fn parse_u32(s: &[char]) -> (r: Option<u32>)
    ensures
        r == parse_u32_spec(s@),
{
    match parse_u64(s) {
        Some(n) => {
            if n <= u32::MAX as u64 {
                Some(n as u32)
            } else {
                None
            }
        },
        None => {
            proof {
                if is_digits(unsigned_body(s@)) {
                    assert(decimal_value(unsigned_body(s@)) > u64::MAX);
                }
            }
            None
        },
    }
}

/// The characters of `s`, in order.
pub fn chars_of(s: &str) -> (v: Vec<char>)
    ensures
        v@ == s@,
{
    let mut v: Vec<char> = Vec::new();
    for c in it: s.chars()
        invariant
            v@ == it.seq().take(it.index() as int),
            it.seq() == s@,
    {
        v.push(c);
    }
    v
}

/// Whether `a` and `b` hold the same characters.
pub fn slice_eq(a: &[char], b: &[char]) -> (r: bool)
    ensures
        r == (a@ == b@),
{
    if a.len() != b.len() {
        return false;
    }
    let mut i: usize = 0;
    while i < a.len()
        invariant
            i <= a@.len(),
            a@.len() == b@.len(),
            forall|j: int| 0 <= j < i ==> a@[j] == b@[j],
        decreases a@.len() - i,
    {
        if a[i] != b[i] {
            return false;
        }
        i += 1;
    }
    assert(a@ =~= b@);
    true
}

/// Whether `s` begins with the characters of `prefix`.
pub open spec fn has_prefix(s: Seq<char>, prefix: Seq<char>) -> bool {
    prefix.len() <= s.len() && s.subrange(0, prefix.len() as int) == prefix
}

/// Whether `s` begins with the characters of `prefix`.
pub fn starts_with(s: &[char], prefix: &[char]) -> (r: bool)
    ensures
        r == has_prefix(s@, prefix@),
{
    if prefix.len() > s.len() {
        return false;
    }
    slice_eq(slice_subrange(s, 0, prefix.len()), prefix)
}

/// The sequences that the slices of `parts` hold, in order.
pub open spec fn slice_views(parts: Seq<&[char]>) -> Seq<Seq<char>> {
    Seq::new(parts.len(), |i: int| parts[i]@)
}

/// The words of `s`, in order.
pub fn split_words(s: &[char]) -> (parts: Vec<&[char]>)
    ensures
        slice_views(parts@) == words(s@),
{
    let mut parts: Vec<&[char]> = Vec::new();
    let mut rest: &[char] = s;
    loop
        invariant
            words(s@) == slice_views(parts@) + words(rest@),
        decreases rest@.len(),
    {
        match next_word(rest) {
            None => {
                assert(slice_views(parts@) + Seq::<Seq<char>>::empty() == slice_views(parts@));
                return parts;
            },
            Some((word, after)) => {
                let ghost before = parts@;
                parts.push(word);
                assert(slice_views(parts@) == slice_views(before) + seq![word@]);
                assert(slice_views(before) + (seq![word@] + words(after@)) == (slice_views(before)
                    + seq![word@]) + words(after@));
                rest = after;
            },
        }
    }
}

/// The lines of `s`: its pieces between line feeds.
pub open spec fn lines(s: Seq<char>) -> Seq<Seq<char>> {
    split(s, '\n')
}

/// A text that begins with characters that are not whitespace has a first
/// word, and that word begins with them too.
pub proof fn lemma_first_word_prefix(s: Seq<char>, prefix: Seq<char>)
    requires
        has_prefix(s, prefix),
        prefix.len() > 0,
        forall|i: int| 0 <= i < prefix.len() ==> !is_whitespace(#[trigger] prefix[i]),
    ensures
        words(s).len() >= 1,
        has_prefix(words(s)[0], prefix),
{
    assert forall|i: int| 0 <= i < prefix.len() implies s[i] == prefix[i] by {
        assert(s.subrange(0, prefix.len() as int)[i] == s[i]);
    }
    assert(!is_whitespace(prefix[0]));
    lemma_first_in_unique(s, CharClass::NonSpace, 0);
    let tail = s.subrange(0, s.len() as int);
    assert(tail == s);
    let end = first_in(tail, CharClass::Space) as int;
    lemma_first_in_bounds(tail, CharClass::Space);
    if end < prefix.len() {
        assert(!is_whitespace(prefix[end]));
    }
    assert(words(s)[0] == s.subrange(0, end));
    assert(words(s)[0].subrange(0, prefix.len() as int) == s.subrange(0, prefix.len() as int));
}

/// Whether `x` is one of the numbers of `v`.
pub fn contains_u32(v: &[u32], x: u32) -> (r: bool)
    ensures
        r == v@.contains(x),
{
    let mut i: usize = 0;
    while i < v.len()
        invariant
            i <= v@.len(),
            forall|j: int| 0 <= j < i ==> v@[j] != x,
        decreases v@.len() - i,
    {
        if v[i] == x {
            return true;
        }
        i += 1;
    }
    false
}

/// Splitting two texts joined by a separator gives the pieces of the first
/// and then those of the second.
pub proof fn lemma_split_joined(a: Seq<char>, b: Seq<char>, sep: char)
    ensures
        split(a + seq![sep] + b, sep) == split(a, sep) + split(b, sep),
    decreases a.len(),
{
    let class = CharClass::Exactly(sep);
    let whole = a + seq![sep] + b;
    let i = first_in(a, class) as int;
    lemma_first_in_bounds(a, class);
    assert forall|j: int| 0 <= j < i implies !class.has(whole[j]) by {
        assert(whole[j] == a[j]);
    }
    if i < a.len() {
        assert(whole[i] == a[i]);
    } else {
        assert(whole[i] == sep);
    }
    lemma_first_in_unique(whole, class, i);
    assert(whole.subrange(0, i) == a.subrange(0, i));
    if i < a.len() {
        let rest = a.subrange(i + 1, a.len() as int);
        assert(whole.subrange(i + 1, whole.len() as int) == rest + seq![sep] + b);
        lemma_split_joined(rest, b, sep);
        assert(seq![a.subrange(0, i)] + (split(rest, sep) + split(b, sep)) == (seq![
            a.subrange(0, i),
        ] + split(rest, sep)) + split(b, sep));
    } else {
        assert(a.subrange(0, i) == a);
        assert(whole.subrange(i + 1, whole.len() as int) == b);
    }
}

/// A text without the separator is its own single piece.
pub proof fn lemma_split_single(s: Seq<char>, sep: char)
    requires
        !s.contains(sep),
    ensures
        split(s, sep) == seq![s],
{
    let class = CharClass::Exactly(sep);
    lemma_first_in_bounds(s, class);
    if first_in(s, class) < s.len() {
        assert(s.contains(s[first_in(s, class) as int]));
    }
}

/// Whether every character of `s` is whitespace.
pub open spec fn is_blank(s: Seq<char>) -> bool {
    forall|i: int| 0 <= i < s.len() ==> is_whitespace(#[trigger] s[i])
}

/// What `trim_end` keeps is the part of `s` up to its last character that
/// is not whitespace.
pub proof fn lemma_trim_end(s: Seq<char>)
    ensures
        trim_end(s).len() <= s.len(),
        trim_end(s) == s.subrange(0, trim_end(s).len() as int),
        forall|j: int| trim_end(s).len() <= j < s.len() ==> is_whitespace(#[trigger] s[j]),
        trim_end(s).len() > 0 ==> !is_whitespace(s[trim_end(s).len() - 1]),
    decreases s.len(),
{
    if s.len() > 0 && is_whitespace(s.last()) {
        let shorter = s.drop_last();
        lemma_trim_end(shorter);
        let n = trim_end(shorter).len() as int;
        assert(shorter.subrange(0, n) == s.subrange(0, n));
        assert forall|j: int| n <= j < s.len() implies is_whitespace(#[trigger] s[j]) by {
            if j < shorter.len() {
                assert(s[j] == shorter[j]);
            }
        }
        if n > 0 {
            assert(s[n - 1] == shorter[n - 1]);
        }
    } else {
        assert(s.subrange(0, s.len() as int) == s);
    }
}

/// The part of `s` from `from` to `to` is `s` trimmed when only whitespace
/// lies outside it and it begins and ends with characters that are not
/// whitespace, or is empty.
pub proof fn lemma_trim_unique(s: Seq<char>, from: int, to: int)
    requires
        0 <= from <= to <= s.len(),
        forall|j: int| 0 <= j < from ==> is_whitespace(#[trigger] s[j]),
        forall|j: int| to <= j < s.len() ==> is_whitespace(#[trigger] s[j]),
        from < to ==> !is_whitespace(s[from]) && !is_whitespace(s[to - 1]),
    ensures
        trim(s) == s.subrange(from, to),
{
    let class = CharClass::NonSpace;
    if from < to {
        lemma_first_in_unique(s, class, from);
        let tail = s.subrange(from, s.len() as int);
        lemma_trim_end(tail);
        let n = trim_end(tail).len() as int;
        if n > to - from {
            assert(tail[n - 1] == s[from + n - 1]);
        }
        if n < to - from {
            assert(tail[to - from - 1] == s[to - 1]);
        }
        assert(tail.subrange(0, n) == s.subrange(from, to));
    } else {
        lemma_first_in_unique(s, class, s.len() as int);
        let tail = s.subrange(s.len() as int, s.len() as int);
        assert(trim_end(tail) == tail);
        assert(tail == s.subrange(from, to));
    }
}

/// What `trim` keeps is a part of `s` with only whitespace outside it, and
/// it begins and ends with characters that are not whitespace, or is empty.
pub proof fn lemma_trim(s: Seq<char>)
    ensures
        exists|from: int, to: int|
            {
                &&& 0 <= from <= to <= s.len()
                &&& #[trigger] s.subrange(from, to) == trim(s)
                &&& is_blank(s.subrange(0, from))
                &&& is_blank(s.subrange(to, s.len() as int))
                &&& from < to ==> !is_whitespace(s[from]) && !is_whitespace(s[to - 1])
            },
        trim(s).len() > 0 ==> !is_whitespace(trim(s)[0]) && !is_whitespace(trim(s).last()),
        is_blank(s) <==> trim(s).len() == 0,
{
    let class = CharClass::NonSpace;
    let from = first_in(s, class) as int;
    lemma_first_in_bounds(s, class);
    let tail = s.subrange(from, s.len() as int);
    lemma_trim_end(tail);
    let to = from + trim_end(tail).len();
    assert(tail.subrange(0, to - from) == s.subrange(from, to));
    assert forall|j: int| to <= j < s.len() implies is_whitespace(#[trigger] s[j]) by {
        assert(tail[j - from] == s[j]);
    }
    if from < to {
        assert(tail[0] == s[from]);
        assert(tail[to - from - 1] == s[to - 1]);
        assert(trim(s)[0] == s[from]);
        assert(trim(s).last() == s[to - 1]);
        assert(!is_blank(s));
    } else {
        assert forall|j: int| 0 <= j < s.len() implies is_whitespace(#[trigger] s[j]) by {}
    }
    assert(is_blank(s.subrange(0, from))) by {
        assert forall|j: int| 0 <= j < from implies is_whitespace(
            #[trigger] s.subrange(0, from)[j],
        ) by {
            assert(s.subrange(0, from)[j] == s[j]);
        }
    }
    assert(is_blank(s.subrange(to, s.len() as int))) by {
        assert forall|j: int| 0 <= j < s.len() - to implies is_whitespace(
            #[trigger] s.subrange(to, s.len() as int)[j],
        ) by {
            assert(s.subrange(to, s.len() as int)[j] == s[to + j]);
        }
    }
}

/// Trimming twice is trimming once.
pub proof fn lemma_trim_idempotent(s: Seq<char>)
    ensures
        trim(trim(s)) == trim(s),
{
    let t = trim(s);
    lemma_trim(s);
    lemma_trim_unique(t, 0, t.len() as int);
    assert(t.subrange(0, t.len() as int) == t);
}

/// Whitespace around a text does not change what is left of it when it is
/// trimmed.
pub proof fn lemma_trim_padded(before: Seq<char>, s: Seq<char>, after: Seq<char>)
    requires
        is_blank(before),
        is_blank(after),
    ensures
        trim(before + s + after) == trim(s),
{
    let whole = before + s + after;
    lemma_trim(s);
    let (from, to) = choose|from: int, to: int|
        {
            &&& 0 <= from <= to <= s.len()
            &&& #[trigger] s.subrange(from, to) == trim(s)
            &&& is_blank(s.subrange(0, from))
            &&& is_blank(s.subrange(to, s.len() as int))
            &&& from < to ==> !is_whitespace(s[from]) && !is_whitespace(s[to - 1])
        };
    let shift = before.len() as int;
    assert forall|j: int| 0 <= j < shift + from implies is_whitespace(#[trigger] whole[j]) by {
        if j < shift {
            assert(whole[j] == before[j]);
        } else {
            assert(whole[j] == s[j - shift]);
            assert(s.subrange(0, from)[j - shift] == s[j - shift]);
        }
    }
    assert forall|j: int| shift + to <= j < whole.len() implies is_whitespace(
        #[trigger] whole[j],
    ) by {
        if j < shift + s.len() {
            assert(whole[j] == s[j - shift]);
            assert(s.subrange(to, s.len() as int)[j - shift - to] == s[j - shift]);
        } else {
            assert(whole[j] == after[j - shift - s.len()]);
        }
    }
    if from < to {
        assert(whole[shift + from] == s[from]);
        assert(whole[shift + to - 1] == s[to - 1]);
    }
    lemma_trim_unique(whole, shift + from, shift + to);
    assert(whole.subrange(shift + from, shift + to) == s.subrange(from, to));
}

} // verus!
