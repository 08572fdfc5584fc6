//! Small text helpers: trimming, splitting off a word, decimal numbers,
//! joining, and ordering names.

use vstd::prelude::*;
use vstd::string::*;
use vstd::utf8::is_ascii_chars;

verus! {

// ---- white space ------------------------------------------------------------

/// Unicode's White_Space property.
pub open spec fn white_space(c: char) -> bool {
    ||| '\u{9}' <= c <= '\u{d}'
    ||| c == ' '
    ||| c == '\u{85}'
    ||| c == '\u{a0}'
    ||| c == '\u{1680}'
    ||| '\u{2000}' <= c <= '\u{200a}'
    ||| c == '\u{2028}'
    ||| c == '\u{2029}'
    ||| c == '\u{202f}'
    ||| c == '\u{205f}'
    ||| c == '\u{3000}'
}

pub(crate) fn is_white_space(c: char) -> (r: bool)
    ensures
        r == white_space(c),
{
    if c <= '\u{7f}' {
        c == ' ' || ('\u{9}' <= c && c <= '\u{d}')
    } else if c <= '\u{1fff}' {
        c == '\u{85}' || c == '\u{a0}' || c == '\u{1680}'
    } else {
        c <= '\u{200a}' || c == '\u{2028}' || c == '\u{2029}' || c == '\u{202f}' || c == '\u{205f}'
            || c == '\u{3000}'
    }
}

// ---- letter case ------------------------------------------------------------

/// What `str::to_lowercase` makes of a text.
pub uninterp spec fn lower(s: Seq<char>) -> Seq<char>;

/// What `str::to_uppercase` makes of a text.
pub uninterp spec fn upper(s: Seq<char>) -> Seq<char>;

/// The lower-case form of an ASCII character.
pub open spec fn ascii_lower(c: char) -> char {
    if 'A' <= c <= 'Z' {
        (c as u32 + 32) as char
    } else {
        c
    }
}

/// The upper-case form of an ASCII character.
pub open spec fn ascii_upper(c: char) -> char {
    if 'a' <= c <= 'z' {
        (c as u32 - 32) as char
    } else {
        c
    }
}

pub open spec fn ascii_lowered(s: Seq<char>) -> Seq<char> {
    s.map_values(|c: char| ascii_lower(c))
}

pub open spec fn ascii_uppered(s: Seq<char>) -> Seq<char> {
    s.map_values(|c: char| ascii_upper(c))
}

/// `s` in lower case: letter by letter if it is ASCII, and else as Unicode has it.
pub open spec fn lowered(s: Seq<char>) -> Seq<char> {
    if is_ascii_chars(s) {
        ascii_lowered(s)
    } else {
        lower(s)
    }
}

/// `str::to_lowercase`: Unicode's lower-case mapping, under the name `lower`.
/// ASCII letters map to ASCII letters, and other ASCII characters stay.
#[verifier::external_body]
pub(crate) fn to_lower(s: &str) -> (r: String)
    ensures
        r@ == lower(s@),
        is_ascii_chars(s@) ==> r@ == ascii_lowered(s@),
{
    s.to_lowercase()
}

/// `str::to_uppercase`: Unicode's upper-case mapping, under the name `upper`.
/// ASCII letters map to ASCII letters, and other ASCII characters stay.
#[verifier::external_body]
pub(crate) fn to_upper(s: &str) -> (r: String)
    ensures
        r@ == upper(s@),
        is_ascii_chars(s@) ==> r@ == ascii_uppered(s@),
{
    s.to_uppercase()
}

// ---- equality, concatenation ------------------------------------------------

pub(crate) fn same(a: &str, b: &str) -> (r: bool)
    ensures
        r == (a@ == b@),
{
    a.to_owned() == b.to_owned()
}

/// `a` followed by `b`.
pub(crate) fn concat2(a: &str, b: &str) -> (r: String)
    ensures
        r@ == a@ + b@,
{
    let mut r = a.to_owned();
    r.append(b);
    r
}

/// `a`, `b` and `c` one after the other.
pub(crate) fn concat3(a: &str, b: &str, c: &str) -> (r: String)
    ensures
        r@ == a@ + b@ + c@,
{
    let mut r = a.to_owned();
    r.append(b);
    r.append(c);
    r
}

// ---- trimming and splitting -------------------------------------------------

pub open spec fn trim_start(s: Seq<char>) -> Seq<char>
    decreases s.len(),
{
    if s.len() > 0 && white_space(s[0]) {
        trim_start(s.skip(1))
    } else {
        s
    }
}

pub open spec fn trim_end(s: Seq<char>) -> Seq<char>
    decreases s.len(),
{
    if s.len() > 0 && white_space(s.last()) {
        trim_end(s.drop_last())
    } else {
        s
    }
}

/// `s` without the white space at its two ends.
pub open spec fn trimmed(s: Seq<char>) -> Seq<char> {
    trim_end(trim_start(s))
}

/// Nothing but white space.
pub open spec fn blank(s: Seq<char>) -> bool {
    forall|i: int| 0 <= i < s.len() ==> white_space(#[trigger] s[i])
}

proof fn lemma_trim_start(p: Seq<char>, s: Seq<char>)
    requires
        blank(p),
    ensures
        trim_start(p + s) == trim_start(s),
    decreases p.len(),
{
    if p.len() == 0 {
        assert(p + s =~= s);
    } else {
        assert((p + s)[0] == p[0]);
        assert((p + s).skip(1) =~= p.skip(1) + s);
        lemma_trim_start(p.skip(1), s);
    }
}

proof fn lemma_trim_end(s: Seq<char>, q: Seq<char>)
    requires
        blank(q),
    ensures
        trim_end(s + q) == trim_end(s),
    decreases q.len(),
{
    if q.len() == 0 {
        assert(s + q =~= s);
    } else {
        assert((s + q).last() == q[q.len() - 1]);
        assert((s + q).drop_last() =~= s + q.drop_last());
        lemma_trim_end(s, q.drop_last());
    }
}

/// What follows a text stays behind it while its front is trimmed, unless
/// nothing is left of it.
proof fn lemma_trim_start_behind(s: Seq<char>, q: Seq<char>)
    ensures
        trim_start(s + q) == if trim_start(s).len() > 0 {
            trim_start(s) + q
        } else {
            trim_start(q)
        },
    decreases s.len(),
{
    if s.len() == 0 {
        assert(s + q =~= q);
    } else if white_space(s[0]) {
        assert((s + q)[0] == s[0]);
        assert((s + q).skip(1) =~= s.skip(1) + q);
        lemma_trim_start_behind(s.skip(1), q);
    } else {
        assert((s + q)[0] == s[0]);
    }
}

/// White space around a text is not part of what trimming leaves.
pub proof fn lemma_trimmed_padding(p: Seq<char>, s: Seq<char>, q: Seq<char>)
    requires
        blank(p),
        blank(q),
    ensures
        trimmed(p + s + q) == trimmed(s),
{
    assert(p + s + q =~= p + (s + q));
    lemma_trim_start(p, s + q);
    lemma_trim_start_behind(s, q);
    if trim_start(s).len() > 0 {
        lemma_trim_end(trim_start(s), q);
    } else {
        lemma_trim_start(q, Seq::empty());
        assert(q + Seq::<char>::empty() =~= q);
        assert(trim_start(s) =~= Seq::<char>::empty());
    }
}

pub(crate) fn trim(s: &str) -> (r: &str)
    ensures
        r@ == trimmed(s@),
{
    let len = s.unicode_len();
    let mut from: usize = 0;
    assert(s@.skip(0) =~= s@);
    while from < len && is_white_space(s.get_char(from))
        invariant
            from <= len,
            len == s@.len(),
            trim_start(s@) == trim_start(s@.skip(from as int)),
        decreases len - from,
    {
        assert(s@.skip(from as int).skip(1) =~= s@.skip(from + 1));
        from += 1;
    }
    let ghost mid = s@.skip(from as int);
    assert(from == len ==> mid.len() == 0);
    let mut to: usize = len;
    assert(mid.take(to - from) =~= mid);
    while to > from && is_white_space(s.get_char(to - 1))
        invariant
            from <= to <= len,
            len == s@.len(),
            mid == s@.skip(from as int),
            trim_end(mid) == trim_end(mid.take(to - from)),
        decreases to,
    {
        assert(mid.take(to - from).drop_last() =~= mid.take(to - 1 - from));
        to -= 1;
    }
    assert(s@.subrange(from as int, to as int) =~= mid.take(to - from));
    s.substring_char(from, to)
}

/// How many characters stand before the first white space.
pub open spec fn word_len(s: Seq<char>) -> nat
    decreases s.len(),
{
    if s.len() == 0 || white_space(s[0]) {
        0
    } else {
        1 + word_len(s.skip(1))
    }
}

/// The part of `s` before its first white space.
pub open spec fn first_word(s: Seq<char>) -> Seq<char> {
    s.take(word_len(s) as int)
}

/// The part of `s` behind its first white space, empty if there is none.
pub open spec fn after_word(s: Seq<char>) -> Seq<char> {
    if word_len(s) < s.len() {
        s.skip(word_len(s) as int + 1)
    } else {
        Seq::empty()
    }
}

pub proof fn lemma_word_len(s: Seq<char>)
    ensures
        word_len(s) <= s.len(),
    decreases s.len(),
{
    if s.len() > 0 {
        lemma_word_len(s.skip(1));
    }
}

/// No white space.
pub open spec fn is_word(s: Seq<char>) -> bool {
    forall|i: int| 0 <= i < s.len() ==> !white_space(#[trigger] s[i])
}

/// A word is split off where white space or nothing follows.
pub proof fn lemma_split(word: Seq<char>, tail: Seq<char>)
    requires
        is_word(word),
        tail.len() > 0 ==> white_space(tail[0]),
    ensures
        first_word(word + tail) == word,
        after_word(word + tail) == if tail.len() > 0 {
            tail.skip(1)
        } else {
            Seq::empty()
        },
{
    lemma_word_len_of(word, tail);
    assert(first_word(word + tail) =~= word);
    if tail.len() > 0 {
        assert(after_word(word + tail) =~= tail.skip(1));
    }
}

proof fn lemma_word_len_of(word: Seq<char>, tail: Seq<char>)
    requires
        is_word(word),
        tail.len() > 0 ==> white_space(tail[0]),
    ensures
        word_len(word + tail) == word.len(),
    decreases word.len(),
{
    let s = word + tail;
    if word.len() > 0 {
        assert(s[0] == word[0]);
        assert(s.skip(1) =~= word.skip(1) + tail);
        lemma_word_len_of(word.skip(1), tail);
    } else {
        assert(s =~= tail);
    }
}

pub(crate) fn split_word(s: &str) -> (r: (&str, &str))
    ensures
        r.0@ == first_word(s@),
        r.1@ == after_word(s@),
{
    let len = s.unicode_len();
    let mut at: usize = 0;
    assert(s@.skip(0) =~= s@);
    while at < len && !is_white_space(s.get_char(at))
        invariant
            at <= len,
            len == s@.len(),
            word_len(s@) == at + word_len(s@.skip(at as int)),
        decreases len - at,
    {
        assert(s@.skip(at as int).skip(1) =~= s@.skip(at + 1));
        at += 1;
    }
    proof {
        lemma_word_len(s@);
    }
    assert(s@.subrange(0, at as int) =~= first_word(s@));
    let word = s.substring_char(0, at);
    if at < len {
        assert(s@.subrange(at + 1, len as int) =~= after_word(s@));
        (word, s.substring_char(at + 1, len))
    } else {
        assert(s@.subrange(len as int, len as int) =~= after_word(s@));
        (word, s.substring_char(len, len))
    }
}

pub open spec fn starts_with_char(s: Seq<char>, c: char) -> bool {
    s.len() > 0 && s[0] == c
}

// ---- numbers ----------------------------------------------------------------

pub open spec fn digit(d: nat) -> char {
    (48 + d) as char
}

/// `n` in decimal.
pub open spec fn digits(n: nat) -> Seq<char>
    decreases n,
{
    if n < 10 {
        seq![digit(n)]
    } else {
        digits(n / 10).push(digit(n % 10))
    }
}

fn digit_str(d: u64) -> (r: &'static str)
    requires
        d < 10,
    ensures
        r@ == seq![digit(d as nat)],
{
    proof {
        reveal_strlit("0");
        reveal_strlit("1");
        reveal_strlit("2");
        reveal_strlit("3");
        reveal_strlit("4");
        reveal_strlit("5");
        reveal_strlit("6");
        reveal_strlit("7");
        reveal_strlit("8");
        reveal_strlit("9");
    }
    if d == 0 {
        "0"
    } else if d == 1 {
        "1"
    } else if d == 2 {
        "2"
    } else if d == 3 {
        "3"
    } else if d == 4 {
        "4"
    } else if d == 5 {
        "5"
    } else if d == 6 {
        "6"
    } else if d == 7 {
        "7"
    } else if d == 8 {
        "8"
    } else {
        "9"
    }
}

pub(crate) fn decimal(n: u64) -> (r: String)
    ensures
        r@ == digits(n as nat),
    decreases n,
{
    if n < 10 {
        digit_str(n).to_owned()
    } else {
        let mut r = decimal(n / 10);
        r.append(digit_str(n % 10));
        assert(r@ =~= digits((n / 10) as nat).push(digit((n % 10) as nat)));
        r
    }
}

pub open spec fn is_digit(c: char) -> bool {
    '0' <= c <= '9'
}

/// The number that a run of decimal digits stands for, if they are all digits.
pub open spec fn digits_value(s: Seq<char>) -> Option<nat>
    decreases s.len(),
{
    if s.len() == 0 {
        Some(0)
    } else {
        match digits_value(s.drop_last()) {
            Some(n) => if is_digit(s.last()) {
                Some((10 * n + (s.last() as u32 - 48)) as nat)
            } else {
                None
            },
            None => None,
        }
    }
}

/// The digits of a number that may carry a leading plus sign.
pub open spec fn unsigned_part(s: Seq<char>) -> Seq<char> {
    if starts_with_char(s, '+') {
        s.skip(1)
    } else {
        s
    }
}

/// An unsigned number of at most `max`: an optional plus sign followed by
/// decimal digits, at least one of them.
pub open spec fn number(s: Seq<char>, max: nat) -> Option<nat> {
    let part = unsigned_part(s);
    match digits_value(part) {
        Some(n) => if part.len() > 0 && n <= max {
            Some(n)
        } else {
            None
        },
        None => None,
    }
}

/// A prefix that is no number, or is too large, stays so whatever is appended.
proof fn lemma_digits_prefix(s: Seq<char>, k: int)
    requires
        0 <= k <= s.len(),
    ensures
        digits_value(s.take(k)) is None ==> digits_value(s) is None,
        digits_value(s) is Some ==> digits_value(s.take(k)) is Some && digits_value(s.take(k))->0
            <= digits_value(s)->0,
    decreases s.len() - k,
{
    if k < s.len() {
        lemma_digits_prefix(s, k + 1);
        assert(s.take(k + 1).drop_last() =~= s.take(k));
    } else {
        assert(s.take(k) =~= s);
    }
}

pub(crate) fn parse_number(s: &str, max: u64) -> (r: Option<u64>)
    requires
        max <= u32::MAX,
    ensures
        match r {
            Some(n) => number(s@, max as nat) == Some(n as nat),
            None => number(s@, max as nat) is None,
        },
{
    let len = s.unicode_len();
    let mut at: usize = 0;
    if len > 0 && s.get_char(0) == '+' {
        at = 1;
    }
    let start = at;
    let ghost part = unsigned_part(s@);
    assert(part =~= s@.skip(start as int));
    if at == len {
        return None;
    }
    let mut n: u64 = 0;
    assert(part.take(0) =~= Seq::<char>::empty());
    while at < len
        invariant
            start <= at <= len,
            len == s@.len(),
            part == s@.skip(start as int),
            part == unsigned_part(s@),
            max <= u32::MAX,
            n <= max,
            digits_value(part.take(at - start)) == Some(n as nat),
        decreases len - at,
    {
        let c = s.get_char(at);
        let ghost k = at - start;
        assert(part.take(k + 1).drop_last() =~= part.take(k));
        assert(part.take(k + 1).last() == c);
        proof {
            lemma_digits_prefix(part, k + 1);
        }
        if c < '0' || c > '9' {
            return None;
        }
        n = 10 * n + (c as u32 - 48) as u64;
        if n > max {
            return None;
        }
        at += 1;
    }
    assert(part.take(len - start) =~= part);
    Some(n)
}

// ---- lists of names ---------------------------------------------------------

/// The items with `sep` between each two.
pub open spec fn joined(items: Seq<Seq<char>>, sep: Seq<char>) -> Seq<char>
    decreases items.len(),
{
    if items.len() == 0 {
        Seq::empty()
    } else if items.len() == 1 {
        items[0]
    } else {
        joined(items.drop_last(), sep) + sep + items.last()
    }
}

/// The contents of a list of strings.
pub open spec fn views(items: Seq<String>) -> Seq<Seq<char>> {
    items.map_values(|s: String| s@)
}

pub(crate) fn join(items: &Vec<String>, sep: &str) -> (r: String)
    ensures
        r@ == joined(views(items@), sep@),
{
    let mut r = String::new();
    let mut i: usize = 0;
    while i < items.len()
        invariant
            i <= items.len(),
            r@ == joined(views(items@).take(i as int), sep@),
        decreases items.len() - i,
    {
        let ghost before = views(items@).take(i as int);
        let ghost after = views(items@).take(i + 1);
        assert(after.drop_last() =~= before);
        assert(after.last() == items@[i as int]@);
        if i > 0 {
            r.append(sep);
        }
        r.append(items[i].as_str());
        assert(i == 0 ==> r@ =~= items@[i as int]@);
        i += 1;
    }
    assert(views(items@).take(i as int) =~= views(items@));
    r
}

/// Lexicographic order by code point, which is how strings compare.
pub open spec fn lex_le(a: Seq<char>, b: Seq<char>) -> bool
    decreases a.len(),
{
    if a.len() == 0 {
        true
    } else if b.len() == 0 {
        false
    } else if a[0] == b[0] {
        lex_le(a.skip(1), b.skip(1))
    } else {
        a[0] < b[0]
    }
}

pub(crate) fn name_le(a: &str, b: &str) -> (r: bool)
    ensures
        r == lex_le(a@, b@),
{
    let la = a.unicode_len();
    let lb = b.unicode_len();
    let mut i: usize = 0;
    assert(a@.skip(0) =~= a@);
    assert(b@.skip(0) =~= b@);
    while i < la && i < lb
        invariant
            i <= la,
            i <= lb,
            la == a@.len(),
            lb == b@.len(),
            lex_le(a@, b@) == lex_le(a@.skip(i as int), b@.skip(i as int)),
        decreases la - i,
    {
        let ca = a.get_char(i);
        let cb = b.get_char(i);
        assert(a@.skip(i as int).skip(1) =~= a@.skip(i + 1));
        assert(b@.skip(i as int).skip(1) =~= b@.skip(i + 1));
        if ca != cb {
            return ca < cb;
        }
        i += 1;
    }
    i == la
}

pub proof fn lemma_lex_total(a: Seq<char>, b: Seq<char>)
    ensures
        lex_le(a, b) || lex_le(b, a),
    decreases a.len(),
{
    if a.len() > 0 && b.len() > 0 && a[0] == b[0] {
        lemma_lex_total(a.skip(1), b.skip(1));
    }
}

pub proof fn lemma_lex_transitive(a: Seq<char>, b: Seq<char>, c: Seq<char>)
    requires
        lex_le(a, b),
        lex_le(b, c),
    ensures
        lex_le(a, c),
    decreases a.len(),
{
    if a.len() > 0 && b.len() > 0 && c.len() > 0 && a[0] == b[0] && b[0] == c[0] {
        lemma_lex_transitive(a.skip(1), b.skip(1), c.skip(1));
    }
}

pub proof fn lemma_lex_antisymmetric(a: Seq<char>, b: Seq<char>)
    requires
        lex_le(a, b),
        lex_le(b, a),
    ensures
        a == b,
    decreases a.len(),
{
    if a.len() > 0 && b.len() > 0 {
        lemma_lex_antisymmetric(a.skip(1), b.skip(1));
        assert(a =~= seq![a[0]] + a.skip(1));
        assert(b =~= seq![b[0]] + b.skip(1));
    }
    assert(a =~= b);
}

// ---- laws -------------------------------------------------------------------

/// Trimming takes white space off both ends, all of it, and nothing else: what is
/// left is a stretch of the text that neither starts nor ends with white space.
pub proof fn trimming_takes_white_space_only(s: Seq<char>) -> (ends: (Seq<char>, Seq<char>))
    ensures
        s == ends.0 + trimmed(s) + ends.1,
        forall|i: int| 0 <= i < ends.0.len() ==> white_space(#[trigger] ends.0[i]),
        forall|i: int| 0 <= i < ends.1.len() ==> white_space(#[trigger] ends.1[i]),
        trimmed(s).len() > 0 ==> !white_space(trimmed(s)[0]) && !white_space(trimmed(s).last()),
    decreases s.len(),
{
    if s.len() > 0 && white_space(s[0]) {
        let (p, q) = trimming_takes_white_space_only(s.skip(1));
        let front = seq![s[0]] + p;
        assert(s =~= seq![s[0]] + s.skip(1));
        assert(s =~= front + trimmed(s) + q);
        (front, q)
    } else {
        let q = lemma_trim_end_splits(s);
        assert(s =~= Seq::<char>::empty() + trimmed(s) + q);
        if trimmed(s).len() > 0 {
            assert(trimmed(s)[0] == s[0]);
        }
        (Seq::empty(), q)
    }
}

proof fn lemma_trim_end_splits(s: Seq<char>) -> (q: Seq<char>)
    ensures
        s == trim_end(s) + q,
        blank(q),
        trim_end(s).len() > 0 ==> !white_space(trim_end(s).last()),
    decreases s.len(),
{
    if s.len() > 0 && white_space(s.last()) {
        let q = lemma_trim_end_splits(s.drop_last());
        assert(s =~= s.drop_last().push(s.last()));
        assert(s =~= trim_end(s) + q.push(s.last()));
        q.push(s.last())
    } else {
        assert(s =~= s + Seq::<char>::empty());
        Seq::empty()
    }
}

/// Splitting off a word cuts a text at its first white space: the word holds
/// none, and the word, that white space and the rest are the text.
pub proof fn splitting_cuts_at_the_first_white_space(s: Seq<char>)
    ensures
        forall|i: int| 0 <= i < first_word(s).len() ==> !white_space(#[trigger] first_word(s)[i]),
        first_word(s).len() == s.len() ==> first_word(s) == s && after_word(s).len() == 0,
        first_word(s).len() < s.len() ==> white_space(s[first_word(s).len() as int]) && s
            == first_word(s) + seq![s[first_word(s).len() as int]] + after_word(s),
        first_word(s).len() <= s.len(),
{
    lemma_word_len(s);
    lemma_word_stops(s);
    let n = word_len(s) as int;
    if n < s.len() {
        assert(s =~= first_word(s) + seq![s[n]] + after_word(s));
    } else {
        assert(first_word(s) =~= s);
    }
}

proof fn lemma_word_stops(s: Seq<char>)
    ensures
        forall|i: int| 0 <= i < word_len(s) ==> !white_space(#[trigger] s[i]),
        word_len(s) < s.len() ==> white_space(s[word_len(s) as int]),
    decreases s.len(),
{
    if s.len() > 0 && !white_space(s[0]) {
        lemma_word_len(s);
        lemma_word_stops(s.skip(1));
        assert forall|i: int| 0 <= i < word_len(s) implies !white_space(#[trigger] s[i]) by {
            if i > 0 {
                assert(s.skip(1)[i - 1] == s[i]);
            }
        }
        if word_len(s) < s.len() {
            assert(s.skip(1)[word_len(s) as int - 1] == s[word_len(s) as int]);
        }
    }
}

/// A number is read back from its decimal form, with or without a plus sign,
/// as long as it is not too large; and its decimal form holds digits only.
pub proof fn numbers_are_read_back(n: nat, max: nat)
    ensures
        n <= max ==> number(digits(n), max) == Some(n),
        n <= max ==> number(seq!['+'] + digits(n), max) == Some(n),
        n > max ==> number(digits(n), max) is None,
        digits(n).len() > 0,
        forall|i: int| 0 <= i < digits(n).len() ==> '0' <= #[trigger] digits(n)[i] <= '9',
        n > 0 ==> digits(n)[0] != '0',
{
    lemma_digits_value(n);
    let d = digits(n);
    assert(d[0] != '+');
    assert((seq!['+'] + d).skip(1) =~= d);
}

proof fn lemma_digits_value(n: nat)
    ensures
        digits_value(digits(n)) == Some(n),
        digits(n).len() > 0,
        forall|i: int| 0 <= i < digits(n).len() ==> '0' <= #[trigger] digits(n)[i] <= '9',
        n > 0 ==> digits(n)[0] != '0',
    decreases n,
{
    if n < 10 {
        let d = seq![digit(n)];
        assert(d.drop_last() =~= Seq::<char>::empty());
        assert(digits_value(d.drop_last()) == Some(0nat));
        assert(d.last() as u32 - 48 == n);
    } else {
        lemma_digits_value(n / 10);
        let d = digits(n);
        assert(d.drop_last() =~= digits(n / 10));
        assert(d.last() as u32 - 48 == n % 10);
    }
}

/// What is read as a number is not too large and consists of digits, at least
/// one, behind at most one plus sign; leading zeros do not matter.
pub proof fn only_digits_are_numbers(s: Seq<char>, max: nat)
    ensures
        number(s, max) matches Some(n) ==> {
            &&& n <= max
            &&& s.len() > 0
            &&& s.last() != '+'
            &&& forall|i: int|
                0 <= i < s.len() ==> '0' <= #[trigger] s[i] <= '9' || (i == 0 && s[i] == '+')
        },
        number(s, max) is Some && '0' <= s[0] <= '9' ==> number(seq!['0'] + s, max) == number(s, max),
{
    let part = unsigned_part(s);
    if digits_value(part) is Some {
        lemma_all_digits(part);
        if number(s, max) is Some {
            assert forall|i: int| 0 <= i < s.len() implies '0' <= #[trigger] s[i] <= '9' || (i == 0
                && s[i] == '+') by {
                if starts_with_char(s, '+') {
                    if i > 0 {
                        assert(part[i - 1] == s[i]);
                    }
                } else {
                    assert(part[i] == s[i]);
                }
            }
            if s.last() == '+' {
                if starts_with_char(s, '+') {
                    assert(part.last() == s.last());
                } else {
                    assert(part[s.len() - 1] == '+');
                }
            }
            lemma_leading_zero(part);
        }
    }
}

proof fn lemma_all_digits(s: Seq<char>)
    requires
        digits_value(s) is Some,
    ensures
        forall|i: int| 0 <= i < s.len() ==> '0' <= #[trigger] s[i] <= '9',
    decreases s.len(),
{
    if s.len() > 0 {
        lemma_all_digits(s.drop_last());
        assert forall|i: int| 0 <= i < s.len() implies '0' <= #[trigger] s[i] <= '9' by {
            if i < s.len() - 1 {
                assert(s.drop_last()[i] == s[i]);
            }
        }
    }
}

proof fn lemma_leading_zero(s: Seq<char>)
    ensures
        digits_value(seq!['0'] + s) == digits_value(s),
    decreases s.len(),
{
    let z = seq!['0'] + s;
    if s.len() == 0 {
        assert(z.drop_last() =~= Seq::<char>::empty());
        assert(digits_value(z.drop_last()) == Some(0nat));
        assert(z.last() as u32 == 48);
    } else {
        assert(z.last() == s.last());
        lemma_leading_zero(s.drop_last());
        assert(z.drop_last() =~= seq!['0'] + s.drop_last());
    }
}

/// Joining puts the separator between each two items and nowhere else.
pub proof fn joining_separates(a: Seq<Seq<char>>, b: Seq<Seq<char>>, item: Seq<char>, sep: Seq<char>)
    ensures
        joined(Seq::empty(), sep) == Seq::<char>::empty(),
        joined(seq![item], sep) == item,
        a.len() > 0 && b.len() > 0 ==> joined(a + b, sep) == joined(a, sep) + sep + joined(b, sep),
    decreases b.len(),
{
    if a.len() > 0 && b.len() > 0 {
        let all = a + b;
        assert(all.last() == b.last());
        assert(all.drop_last() =~= a + b.drop_last());
        if b.len() == 1 {
            assert(all.drop_last() =~= a);
            assert(b[0] == b.last());
        } else {
            joining_separates(a, b.drop_last(), item, sep);
            assert(joined(all, sep) =~= joined(a, sep) + sep + joined(b, sep));
        }
    }
}

/// Names are ordered by the first character in which they differ, and a name
/// comes before its continuations.
pub proof fn names_are_ordered_by_the_first_difference(
    common: Seq<char>,
    a: char,
    b: char,
    x: Seq<char>,
    y: Seq<char>,
)
    ensures
        a < b ==> lex_le(common.push(a) + x, common.push(b) + y) && !lex_le(
            common.push(b) + y,
            common.push(a) + x,
        ),
        lex_le(common, common + x),
        x.len() > 0 ==> !lex_le(common + x, common),
    decreases common.len(),
{
    let l = common.push(a) + x;
    let r = common.push(b) + y;
    if common.len() == 0 {
        assert(l[0] == a && r[0] == b);
        assert(common + x =~= x);
    } else {
        let rest = common.skip(1);
        names_are_ordered_by_the_first_difference(rest, a, b, x, y);
        assert(l[0] == common[0] && r[0] == common[0] && (common + x)[0] == common[0]);
        assert(l.skip(1) =~= rest.push(a) + x);
        assert(r.skip(1) =~= rest.push(b) + y);
        assert((common + x).skip(1) =~= rest + x);
    }
}

/// Lower case is a matter of the 26 letters: `a` for `A` and so on, and every
/// other ASCII character stays; so do the positions.
pub proof fn ascii_case_is_about_letters(s: Seq<char>, i: int)
    requires
        0 <= i < s.len(),
    ensures
        ascii_lowered(s).len() == s.len(),
        ascii_uppered(s).len() == s.len(),
        'A' <= s[i] <= 'Z' ==> ascii_lowered(s)[i] as u32 == s[i] as u32 + 32,
        !('A' <= s[i] <= 'Z') ==> ascii_lowered(s)[i] == s[i],
        'a' <= s[i] <= 'z' ==> ascii_uppered(s)[i] as u32 == s[i] as u32 - 32,
        !('a' <= s[i] <= 'z') ==> ascii_uppered(s)[i] == s[i],
{
}

} // verus!
