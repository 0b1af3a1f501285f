//! Character-level string utilities with exact specifications: Unicode
//! whitespace trimming, separator splitting, ASCII case folding and decimal
//! formatting and parsing.

use vstd::prelude::*;
use vstd::utf8::is_ascii_chars;

verus! {

/// The Unicode `White_Space` property, which `char::is_whitespace` implements.
pub open spec fn is_white_space(c: char) -> bool {
    let u = c as u32;
    (0x09 <= u && u <= 0x0d) || u == 0x20 || u == 0x85 || u == 0xa0 || u == 0x1680
        || (0x2000 <= u && u <= 0x200a) || u == 0x2028 || u == 0x2029 || u == 0x202f
        || u == 0x205f || u == 0x3000
}

/// Executable Unicode whitespace test.
pub fn char_is_white_space(c: char) -> (r: bool)
    ensures
        r == is_white_space(c),
{
    let u = c as u32;
    (0x09 <= u && u <= 0x0d) || u == 0x20 || u == 0x85 || u == 0xa0 || u == 0x1680
        || (0x2000 <= u && u <= 0x200a) || u == 0x2028 || u == 0x2029 || u == 0x202f
        || u == 0x205f || u == 0x3000
}

/// The characters of a string slice, in order.
pub fn chars_of(s: &str) -> (r: Vec<char>)
    ensures
        r@ == s@,
{
    let mut out: Vec<char> = Vec::new();
    for c in it: s.chars()
        invariant
            it.seq() == s@,
            out@ == s@.take(it.index()),
    {
        out.push(c);
    }
    out
}


/// The string with its leading Unicode whitespace removed.
pub open spec fn trim_start(s: Seq<char>) -> Seq<char>
    decreases s.len(),
{
    if s.len() > 0 && is_white_space(s[0]) {
        trim_start(s.drop_first())
    } else {
        s
    }
}

/// The string with its trailing Unicode whitespace removed.
pub open spec fn trim_end(s: Seq<char>) -> Seq<char>
    decreases s.len(),
{
    if s.len() > 0 && is_white_space(s.last()) {
        trim_end(s.drop_last())
    } else {
        s
    }
}

/// The string with leading and trailing Unicode whitespace removed (`str::trim`).
pub open spec fn trimmed(s: Seq<char>) -> Seq<char> {
    trim_end(trim_start(s))
}

proof fn lemma_trim_start_at(s: Seq<char>, a: int)
    requires
        0 <= a <= s.len(),
        forall|k: int| 0 <= k < a ==> is_white_space(#[trigger] s[k]),
        a == s.len() || !is_white_space(s[a]),
    ensures
        trim_start(s) == s.subrange(a, s.len() as int),
    decreases a,
{
    if a == 0 {
        assert(s.subrange(0, s.len() as int) =~= s);
    } else {
        let t = s.drop_first();
        assert forall|k: int| 0 <= k < a - 1 implies is_white_space(#[trigger] t[k]) by {
            assert(t[k] == s[k + 1]);
        }
        lemma_trim_start_at(t, a - 1);
        assert(t.subrange(a - 1, t.len() as int) =~= s.subrange(a, s.len() as int));
    }
}

proof fn lemma_trim_end_at(s: Seq<char>, b: int)
    requires
        0 <= b <= s.len(),
        forall|k: int| b <= k < s.len() ==> is_white_space(#[trigger] s[k]),
        b == 0 || !is_white_space(s[b - 1]),
    ensures
        trim_end(s) == s.subrange(0, b),
    decreases s.len() - b,
{
    if b == s.len() {
        assert(s.subrange(0, b) =~= s);
    } else {
        let t = s.drop_last();
        assert forall|k: int| b <= k < t.len() implies is_white_space(#[trigger] t[k]) by {
            assert(t[k] == s[k]);
        }
        lemma_trim_end_at(t, b);
        assert(t.subrange(0, b) =~= s.subrange(0, b));
    }
}

/// The bounds of the trimmed part of a character sequence: what `str::trim`
/// keeps runs from the first to the second.
pub fn trim_bounds(cs: &Vec<char>) -> (r: (usize, usize))
    ensures
        r.0 <= r.1 <= cs@.len(),
        trimmed(cs@) == cs@.subrange(r.0 as int, r.1 as int),
{
    let n = cs.len();
    let mut a: usize = 0;
    while a < n && char_is_white_space(cs[a])
        invariant
            n == cs@.len(),
            a <= n,
            forall|k: int| 0 <= k < a ==> is_white_space(#[trigger] cs@[k]),
        decreases n - a,
    {
        a = a + 1;
    }
    let mut b: usize = n;
    while b > a && char_is_white_space(cs[b - 1])
        invariant
            n == cs@.len(),
            a <= b <= n,
            forall|k: int| b <= k < n ==> is_white_space(#[trigger] cs@[k]),
        decreases b - a,
    {
        b = b - 1;
    }
    proof {
        let s = cs@;
        lemma_trim_start_at(s, a as int);
        let t = s.subrange(a as int, n as int);
        assert forall|k: int| (b - a) <= k < t.len() implies is_white_space(#[trigger] t[k]) by {
            assert(t[k] == s[k + a]);
        }
        if b > a {
            assert(t[b - a - 1] == s[b - 1]);
        }
        lemma_trim_end_at(t, (b - a) as int);
        assert(t.subrange(0, (b - a) as int) =~= s.subrange(a as int, b as int));
    }
    (a, b)
}

/// The characters from index `from` up to `to`.
pub fn chars_between(cs: &Vec<char>, from: usize, to: usize) -> (r: Vec<char>)
    requires
        from <= to <= cs@.len(),
    ensures
        r@ == cs@.subrange(from as int, to as int),
{
    let mut out: Vec<char> = Vec::new();
    let mut i = from;
    while i < to
        invariant
            from <= i <= to <= cs@.len(),
            out@ == cs@.subrange(from as int, i as int),
        decreases to - i,
    {
        out.push(cs[i]);
        i = i + 1;
        assert(out@ =~= cs@.subrange(from as int, i as int));
    }
    out
}

/// `str::trim`: the slice without leading and trailing Unicode whitespace.
pub fn trim(s: &str) -> (r: &str)
    ensures
        r@ == trimmed(s@),
{
    let cs = chars_of(s);
    let (a, b) = trim_bounds(&cs);
    s.substring_char(a, b)
}

/// The separators of a configured list: comma, newline, space and tab.
pub open spec fn is_list_separator(c: char) -> bool {
    c == ',' || c == '\n' || c == ' ' || c == '\t'
}

/// The pieces that `str::split` yields for the list separators: the maximal runs
/// between separators, empty runs included, so `n` separators give `n + 1` pieces.
pub open spec fn split_pieces(s: Seq<char>) -> Seq<Seq<char>>
    decreases s.len(),
{
    if s.len() == 0 {
        seq![Seq::<char>::empty()]
    } else {
        let p = split_pieces(s.drop_last());
        if is_list_separator(s.last()) {
            p.push(Seq::<char>::empty())
        } else {
            p.update(p.len() - 1, p.last().push(s.last()))
        }
    }
}

/// The pieces, each trimmed, with the pieces that are empty after trimming left out.
pub open spec fn trimmed_nonempty(ps: Seq<Seq<char>>) -> Seq<Seq<char>>
    decreases ps.len(),
{
    if ps.len() == 0 {
        Seq::empty()
    } else {
        let acc = trimmed_nonempty(ps.drop_last());
        let t = trimmed(ps.last());
        if t.len() == 0 {
            acc
        } else {
            acc.push(t)
        }
    }
}

/// The entries of a separated list: the trimmed, non-empty pieces, in order.
pub open spec fn list_entries(s: Seq<char>) -> Seq<Seq<char>> {
    trimmed_nonempty(split_pieces(s))
}

proof fn lemma_split_pieces_nonempty(s: Seq<char>)
    ensures
        split_pieces(s).len() >= 1,
    decreases s.len(),
{
    if s.len() > 0 {
        lemma_split_pieces_nonempty(s.drop_last());
    }
}

proof fn lemma_trimmed_nonempty_push(ps: Seq<Seq<char>>, x: Seq<char>)
    ensures
        trimmed_nonempty(ps.push(x)) == (if trimmed(x).len() == 0 {
            trimmed_nonempty(ps)
        } else {
            trimmed_nonempty(ps).push(trimmed(x))
        }),
{
    assert(ps.push(x).drop_last() =~= ps);
}

/// Splits a list at commas, newlines, spaces and tabs, trims each piece and
/// keeps the pieces that are not empty.
pub fn split_list(s: &str) -> (r: Vec<&str>)
    ensures
        r@.len() == list_entries(s@).len(),
        forall|i: int| 0 <= i < r@.len() ==> #[trigger] r@[i]@ == list_entries(s@)[i],
{
    let cs = chars_of(s);
    let n = cs.len();
    let mut out: Vec<&str> = Vec::new();
    let mut start: usize = 0;
    let mut i: usize = 0;
    proof {
        assert(s@.take(0) =~= Seq::<char>::empty());
    }
    while i < n
        invariant
            cs@ == s@,
            n == cs@.len(),
            start <= i <= n,
            split_pieces(s@.take(i as int)).len() >= 1,
            split_pieces(s@.take(i as int)).last() == s@.subrange(start as int, i as int),
            out@.len() == trimmed_nonempty(split_pieces(s@.take(i as int)).drop_last()).len(),
            forall|k: int| 0 <= k < out@.len() ==> #[trigger] out@[k]@
                == trimmed_nonempty(split_pieces(s@.take(i as int)).drop_last())[k],
        decreases n - i,
    {
        let c = cs[i];
        let ghost before = s@.take(i as int);
        let ghost after = s@.take(i + 1);
        proof {
            assert(after.drop_last() =~= before);
            assert(after.last() == c);
            lemma_split_pieces_nonempty(before);
        }
        if c == ',' || c == '\n' || c == ' ' || c == '\t' {
            let piece = s.substring_char(start, i);
            let entry = trim(piece);
            proof {
                let p = split_pieces(before);
                assert(split_pieces(after) == p.push(Seq::<char>::empty()));
                assert(split_pieces(after).drop_last() =~= p);
                assert(p =~= p.drop_last().push(p.last()));
                lemma_trimmed_nonempty_push(p.drop_last(), p.last());
            }
            if entry.unicode_len() > 0 {
                out.push(entry);
            }
            start = i + 1;
            proof {
                assert(split_pieces(after).last() =~= s@.subrange(start as int, (i + 1) as int));
            }
        } else {
            proof {
                let p = split_pieces(before);
                assert(split_pieces(after) == p.update(p.len() - 1, p.last().push(c)));
                assert(split_pieces(after).drop_last() =~= p.drop_last());
                assert(split_pieces(after).last() =~= s@.subrange(start as int, (i + 1) as int));
            }
        }
        i = i + 1;
    }
    let piece = s.substring_char(start, n);
    let entry = trim(piece);
    proof {
        assert(s@.take(n as int) =~= s@);
        let p = split_pieces(s@);
        assert(p =~= p.drop_last().push(p.last()));
        lemma_trimmed_nonempty_push(p.drop_last(), p.last());
    }
    if entry.unicode_len() > 0 {
        out.push(entry);
    }
    out
}


/// Whether two string slices hold the same characters.
pub fn same_text(a: &str, b: &str) -> (r: bool)
    ensures
        r == (a@ == b@),
{
    let ca = chars_of(a);
    let cb = chars_of(b);
    if ca.len() != cb.len() {
        return false;
    }
    let mut i: usize = 0;
    while i < ca.len()
        invariant
            ca@ == a@,
            cb@ == b@,
            ca@.len() == cb@.len(),
            i <= ca@.len(),
            forall|k: int| 0 <= k < i ==> ca@[k] == cb@[k],
        decreases ca@.len() - i,
    {
        if ca[i] != cb[i] {
            return false;
        }
        i = i + 1;
    }
    assert(a@ =~= b@);
    true
}

/// The code of a character with ASCII upper-case letters folded to lower case
/// (`char::to_ascii_lowercase`, read as a code point).
pub open spec fn ascii_fold(c: char) -> u32 {
    if 'A' <= c && c <= 'Z' {
        (c as u32 + 32) as u32
    } else {
        c as u32
    }
}

/// Equality after ASCII case folding (`str::eq_ignore_ascii_case`), which is what
/// comparing the results of `to_ascii_lowercase` amounts to.
pub open spec fn eq_ignore_ascii_case(a: Seq<char>, b: Seq<char>) -> bool {
    &&& a.len() == b.len()
    &&& forall|i: int| 0 <= i < a.len() ==> ascii_fold(#[trigger] a[i]) == ascii_fold(b[i])
}

/// Whether `t` is `s` with some of its ASCII letters written in the other case:
/// each character is kept, or is the upper-case form of a lower-case letter of
/// `s`, or the lower-case form of an upper-case letter of `s`.
pub open spec fn ascii_case_variant(s: Seq<char>, t: Seq<char>) -> bool {
    &&& s.len() == t.len()
    &&& forall|i: int|
        0 <= i < s.len() ==> {
            ||| #[trigger] t[i] == s[i]
            ||| 'A' <= t[i] <= 'Z' && s[i] as u32 == t[i] as u32 + 32
            ||| 'A' <= s[i] <= 'Z' && t[i] as u32 == s[i] as u32 + 32
        }
}

/// Two characters fold alike exactly when they are equal or are the upper- and
/// lower-case forms of one ASCII letter.
pub proof fn law_ascii_fold_pairs_case_forms(a: char, b: char)
    ensures
        ascii_fold(a) == ascii_fold(b) <==> {
            ||| a == b
            ||| 'A' <= a <= 'Z' && b as u32 == a as u32 + 32
            ||| 'A' <= b <= 'Z' && a as u32 == b as u32 + 32
        },
        'A' <= a <= 'Z' ==> ascii_fold(a) == a as u32 + 32,
        !('A' <= a <= 'Z') ==> ascii_fold(a) == a as u32,
{
}

/// Equality up to ASCII case holds exactly between a text and the texts that
/// write some of its ASCII letters in the other case.
pub proof fn law_eq_ignore_ascii_case_is_case_variants(s: Seq<char>, t: Seq<char>)
    ensures
        eq_ignore_ascii_case(s, t) <==> ascii_case_variant(s, t),
{
    if ascii_case_variant(s, t) {
        assert forall|i: int| 0 <= i < s.len() implies ascii_fold(#[trigger] s[i]) == ascii_fold(t[i]) by {
            law_ascii_fold_pairs_case_forms(s[i], t[i]);
        }
    }
    if eq_ignore_ascii_case(s, t) {
        assert forall|i: int| 0 <= i < s.len() implies {
            ||| #[trigger] t[i] == s[i]
            ||| 'A' <= t[i] <= 'Z' && s[i] as u32 == t[i] as u32 + 32
            ||| 'A' <= s[i] <= 'Z' && t[i] as u32 == s[i] as u32 + 32
        } by {
            law_ascii_fold_pairs_case_forms(s[i], t[i]);
        }
    }
}

fn char_ascii_fold(c: char) -> (r: u32)
    ensures
        r == ascii_fold(c),
        'A' <= c <= 'Z' ==> r == c as u32 + 32,
        !('A' <= c <= 'Z') ==> r == c as u32,
{
    if 'A' <= c && c <= 'Z' {
        c as u32 + 32
    } else {
        c as u32
    }
}

/// Executable `eq_ignore_ascii_case` on character vectors.
pub fn chars_eq_ignore_ascii_case(a: &Vec<char>, b: &Vec<char>) -> (r: bool)
    ensures
        r == eq_ignore_ascii_case(a@, b@),
{
    if a.len() != b.len() {
        return false;
    }
    let mut i: usize = 0;
    while i < a.len()
        invariant
            a@.len() == b@.len(),
            i <= a@.len(),
            forall|k: int| 0 <= k < i ==> ascii_fold(#[trigger] a@[k]) == ascii_fold(b@[k]),
        decreases a@.len() - i,
    {
        if char_ascii_fold(a[i]) != char_ascii_fold(b[i]) {
            return false;
        }
        i = i + 1;
    }
    true
}

/// The index of the first occurrence of `c` in `s`, if any.
pub open spec fn first_index_of(s: Seq<char>, c: char) -> Option<int> {
    if exists|i: int| 0 <= i < s.len() && s[i] == c {
        Some(choose|i: int| 0 <= i < s.len() && s[i] == c && forall|k: int| 0 <= k < i ==> s[k] != c)
    } else {
        None
    }
}

/// `str::split_once` for a single character: the text before and after its
/// first occurrence.
pub open spec fn halves_at_first(s: Seq<char>, c: char) -> Option<(Seq<char>, Seq<char>)> {
    match first_index_of(s, c) {
        Some(i) => Some((s.subrange(0, i), s.subrange(i + 1, s.len() as int))),
        None => None,
    }
}

/// When the text holds `c`, it splits at an index where `c` stands and no `c`
/// stands before.
pub proof fn lemma_halves_at_first(s: Seq<char>, c: char) -> (i: int)
    requires
        halves_at_first(s, c) is Some,
    ensures
        0 <= i < s.len(),
        s[i] == c,
        forall|k: int| 0 <= k < i ==> s[k] != c,
        halves_at_first(s, c) == Some((s.subrange(0, i), s.subrange(i + 1, s.len() as int))),
{
    let w = choose|w: int| 0 <= w < s.len() && s[w] == c;
    lemma_first_index_exists(s, c, w);
    choose|i: int| 0 <= i < s.len() && s[i] == c && forall|k: int| 0 <= k < i ==> s[k] != c
}

proof fn lemma_first_index_exists(s: Seq<char>, c: char, w: int)
    requires
        0 <= w < s.len(),
        s[w] == c,
    ensures
        exists|i: int| 0 <= i < s.len() && s[i] == c && forall|k: int| 0 <= k < i ==> s[k] != c,
    decreases w,
{
    if exists|k: int| 0 <= k < w && s[k] == c {
        let k = choose|k: int| 0 <= k < w && s[k] == c;
        lemma_first_index_exists(s, c, k);
    }
}

/// Splits at the first occurrence of `c` (`str::split_once`).
pub fn split_once<'a>(s: &'a str, c: char) -> (r: Option<(&'a str, &'a str)>)
    ensures
        match r {
            Some((x, y)) => halves_at_first(s@, c) == Some((x@, y@)),
            None => halves_at_first(s@, c) is None,
        },
{
    let cs = chars_of(s);
    let n = cs.len();
    let mut i: usize = 0;
    while i < n
        invariant
            cs@ == s@,
            n == cs@.len(),
            i <= n,
            forall|k: int| 0 <= k < i ==> cs@[k] != c,
        decreases n - i,
    {
        if cs[i] == c {
            proof {
                let j = choose|j: int| 0 <= j < s@.len() && s@[j] == c && forall|k: int| 0 <= k < j ==> s@[k] != c;
                assert(s@[i as int] == c);
                if j < i {
                    assert(s@[j] != c);
                }
                if j > i {
                    assert(s@[i as int] != c);
                }
                assert(j == i);
            }
            return Some((s.substring_char(0, i), s.substring_char(i + 1, n)));
        }
        i = i + 1;
    }
    None
}


/// The decimal digit character for a value below ten.
pub open spec fn digit_char(d: nat) -> char {
    seq!['0', '1', '2', '3', '4', '5', '6', '7', '8', '9'][d as int]
}

/// The decimal representation of a natural number, without sign or leading zeros.
pub open spec fn decimal(n: nat) -> Seq<char>
    decreases n,
{
    if n < 10 {
        seq![digit_char(n)]
    } else {
        decimal(n / 10).push(digit_char(n % 10))
    }
}

fn digit_text(d: u64) -> (r: &'static str)
    requires
        d < 10,
    ensures
        r@ == seq![digit_char(d as nat)],
{
    let r = if d == 0 {
        "0"
    } else if d == 1 {
        "1"
    } else if d == 2 {
        "2"
    } else if d == 3 {
        "3"
    } else if d == 4 {
        "4"
    } else if d == 5 {
        "5"
    } else if d == 6 {
        "6"
    } else if d == 7 {
        "7"
    } else if d == 8 {
        "8"
    } else {
        "9"
    };
    proof {
        reveal_strlit("0");
        reveal_strlit("1");
        reveal_strlit("2");
        reveal_strlit("3");
        reveal_strlit("4");
        reveal_strlit("5");
        reveal_strlit("6");
        reveal_strlit("7");
        reveal_strlit("8");
        reveal_strlit("9");
        assert(r@ =~= seq![digit_char(d as nat)]);
    }
    r
}

/// The decimal text of an unsigned integer (what `Display` writes for it).
pub fn decimal_text(n: u64) -> (r: String)
    ensures
        r@ == decimal(n as nat),
    decreases n,
{
    if n < 10 {
        String::from_str(digit_text(n))
    } else {
        let mut r = decimal_text(n / 10);
        r.append(digit_text(n % 10));
        r
    }
}

/// An ASCII decimal digit.
pub open spec fn is_ascii_digit(c: char) -> bool {
    '0' <= c && c <= '9'
}

/// The value of an ASCII decimal digit.
pub open spec fn digit_value(c: char) -> nat {
    (c as u32 - '0' as u32) as nat
}

/// The value of a sequence of decimal digits, most significant first.
pub open spec fn digits_value(d: Seq<char>) -> nat
    decreases d.len(),
{
    if d.len() == 0 {
        0
    } else {
        digits_value(d.drop_last()) * 10 + digit_value(d.last())
    }
}

/// The digits that `u64::from_str` reads: a single leading `+` is skipped when
/// something follows it.
pub open spec fn unsigned_digits(s: Seq<char>) -> Seq<char> {
    if s.len() > 1 && s[0] == '+' {
        s.drop_first()
    } else {
        s
    }
}

/// What `s.parse::<u64>().ok()` gives: the value of a non-empty run of ASCII
/// digits, optionally after a `+`, when it fits in 64 bits.
pub open spec fn parsed_u64(s: Seq<char>) -> Option<u64> {
    let d = unsigned_digits(s);
    if d.len() > 0 && (forall|i: int| 0 <= i < d.len() ==> is_ascii_digit(#[trigger] d[i]))
        && digits_value(d) <= u64::MAX {
        Some(digits_value(d) as u64)
    } else {
        None
    }
}

proof fn lemma_digit_char(d: nat)
    requires
        d < 10,
    ensures
        is_ascii_digit(digit_char(d)),
        digit_value(digit_char(d)) == d,
        digit_char(d) != '+',
{
    if d == 0 {
    } else if d == 1 {
    } else if d == 2 {
    } else if d == 3 {
    } else if d == 4 {
    } else if d == 5 {
    } else if d == 6 {
    } else if d == 7 {
    } else if d == 8 {
    } else {
    }
}

proof fn lemma_decimal_digits(n: nat)
    ensures
        decimal(n).len() > 0,
        forall|i: int| 0 <= i < decimal(n).len() ==> is_ascii_digit(#[trigger] decimal(n)[i]),
        digits_value(decimal(n)) == n,
    decreases n,
{
    if n < 10 {
        lemma_digit_char(n);
        assert(decimal(n).drop_last() =~= Seq::<char>::empty());
        assert(digits_value(Seq::<char>::empty()) == 0);
        assert(decimal(n).last() == digit_char(n));
    } else {
        lemma_decimal_digits(n / 10);
        lemma_digit_char(n % 10);
        let p = decimal(n / 10);
        assert(decimal(n).drop_last() =~= p);
        assert forall|i: int| 0 <= i < decimal(n).len() implies is_ascii_digit(#[trigger] decimal(n)[i]) by {
            if i < p.len() {
                assert(decimal(n)[i] == p[i]);
            }
        }
    }
}

/// Reading back the decimal text of a number gives the number: what
/// `decimal_text` writes, `parse_u64` reads.
pub proof fn law_decimal_round_trip(n: u64)
    ensures
        parsed_u64(decimal(n as nat)) == Some(n),
{
    let d = decimal(n as nat);
    lemma_decimal_digits(n as nat);
    assert(is_ascii_digit(d[0]));
    assert(unsigned_digits(d) == d);
}

proof fn lemma_digits_value_prefix_monotone(d: Seq<char>, k: int, m: int)
    requires
        0 <= k <= m <= d.len(),
    ensures
        digits_value(d.take(k)) <= digits_value(d.take(m)),
    decreases m - k,
{
    if k < m {
        lemma_digits_value_prefix_monotone(d, k, m - 1);
        assert(d.take(m).drop_last() =~= d.take(m - 1));
    }
}

/// Parses the characters as an unsigned 64-bit decimal number, as `str::parse::<u64>` does.
pub fn parse_u64_chars(cs: &Vec<char>) -> (r: Option<u64>)
    ensures
        r == parsed_u64(cs@),
{
    let ghost s = cs@;
    let n = cs.len();
    let start: usize = if n > 1 && cs[0] == '+' { 1 } else { 0 };
    let ghost d = unsigned_digits(s);
    assert(d =~= s.subrange(start as int, n as int));
    if start == n {
        return None;
    }
    let mut v: u64 = 0;
    let mut i: usize = start;
    assert(d.take(0) =~= Seq::<char>::empty());
    while i < n
        invariant
            cs@ == s,
            n == cs@.len(),
            start <= i <= n,
            d == s.subrange(start as int, n as int),
            d == unsigned_digits(s),
            forall|k: int| 0 <= k < i - start ==> is_ascii_digit(#[trigger] d[k]),
            v == digits_value(d.take(i - start)),
        decreases n - i,
    {
        let c = cs[i];
        assert(c == d[i - start]);
        if !('0' <= c && c <= '9') {
            assert(!is_ascii_digit(d[i - start]));
            return None;
        }
        let dv: u64 = (c as u32 - '0' as u32) as u64;
        assert(d.take(i - start + 1).drop_last() =~= d.take(i - start));
        match v.checked_mul(10) {
            None => {
                proof {
                    if forall|k: int| 0 <= k < d.len() ==> is_ascii_digit(#[trigger] d[k]) {
                        assert(digits_value(d.take(i - start + 1)) == v * 10 + digit_value(c));
                        lemma_digits_value_prefix_monotone(d, i - start + 1, d.len() as int);
                        assert(d.take(d.len() as int) =~= d);
                    }
                }
                return None;
            },
            Some(t) => match t.checked_add(dv) {
                None => {
                    proof {
                        if forall|k: int| 0 <= k < d.len() ==> is_ascii_digit(#[trigger] d[k]) {
                            lemma_digits_value_prefix_monotone(d, i - start + 1, d.len() as int);
                            assert(d.take(d.len() as int) =~= d);
                        }
                    }
                    return None;
                },
                Some(w) => {
                    v = w;
                },
            },
        }
        i = i + 1;
    }
    assert(d.take(n - start) =~= d);
    Some(v)
}

/// Parses an unsigned 64-bit decimal number as `str::parse::<u64>` does.
pub fn parse_u64(s: &str) -> (r: Option<u64>)
    ensures
        r == parsed_u64(s@),
{
    parse_u64_chars(&chars_of(s))
}


/// The string with every trailing occurrence of `c` removed (`str::trim_end_matches`).
pub open spec fn without_trailing(s: Seq<char>, c: char) -> Seq<char>
    decreases s.len(),
{
    if s.len() > 0 && s.last() == c {
        without_trailing(s.drop_last(), c)
    } else {
        s
    }
}

/// `str::trim_end_matches` for a single character.
pub fn trim_end_matches(s: &str, c: char) -> (r: &str)
    ensures
        r@ == without_trailing(s@, c),
{
    let cs = chars_of(s);
    let mut b: usize = cs.len();
    assert(s@.take(b as int) =~= s@);
    while b > 0 && cs[b - 1] == c
        invariant
            cs@ == s@,
            b <= cs@.len(),
            without_trailing(s@, c) == without_trailing(s@.take(b as int), c),
        decreases b,
    {
        proof {
            assert(s@.take(b as int).drop_last() =~= s@.take(b - 1));
        }
        b = b - 1;
    }
    proof {
        assert(s@.take(b as int) =~= s@.subrange(0, b as int));
        if b == cs.len() {
            assert(s@.take(b as int) =~= s@);
        }
    }
    s.substring_char(0, b)
}

/// A character with ASCII upper-case letters mapped to lower case.
pub open spec fn ascii_lower_char(c: char) -> char {
    if 'A' <= c && c <= 'Z' {
        ((c as u32) + 32) as char
    } else {
        c
    }
}

/// The string with ASCII upper-case letters mapped to lower case.
pub open spec fn ascii_lowercase(s: Seq<char>) -> Seq<char> {
    Seq::new(s.len(), |i: int| ascii_lower_char(s[i]))
}

/// What `str::to_lowercase` returns: the lower-case mapping of the Unicode
/// Derived Core Property `Lowercase`, character by character, where one
/// character may map to several.
pub uninterp spec fn unicode_lowercase(s: Seq<char>) -> Seq<char>;

/// Calls `str::to_lowercase`. The contract names the result and states the one
/// fact that callers use: on ASCII text it is the ASCII lower-case mapping,
/// since Unicode lower-cases the ASCII letters `A`-`Z` to `a`-`z` and leaves every
/// other ASCII character alone.
#[verifier::external_body]
pub(crate) fn to_lowercase(s: &str) -> (r: String)
    ensures
        r@ == unicode_lowercase(s@),
        is_ascii_chars(s@) ==> r@ == ascii_lowercase(s@),
{
    s.to_lowercase()
}


proof fn lemma_trim_start_index(s: Seq<char>) -> (a: int)
    ensures
        0 <= a <= s.len(),
        trim_start(s) == s.subrange(a, s.len() as int),
        a == s.len() || !is_white_space(s[a]),
        forall|i: int| 0 <= i < a ==> is_white_space(#[trigger] s[i]),
    decreases s.len(),
{
    if s.len() > 0 && is_white_space(s[0]) {
        let a = lemma_trim_start_index(s.drop_first());
        assert(s.drop_first().subrange(a, s.len() - 1) =~= s.subrange(a + 1, s.len() as int));
        assert forall|i: int| 0 <= i < a + 1 implies is_white_space(#[trigger] s[i]) by {
            if i > 0 {
                assert(s[i] == s.drop_first()[i - 1]);
            }
        }
        a + 1
    } else {
        assert(s.subrange(0, s.len() as int) =~= s);
        0
    }
}

proof fn lemma_trim_end_index(s: Seq<char>) -> (b: int)
    ensures
        0 <= b <= s.len(),
        trim_end(s) == s.subrange(0, b),
        b == 0 || !is_white_space(s[b - 1]),
        forall|i: int| b <= i < s.len() ==> is_white_space(#[trigger] s[i]),
    decreases s.len(),
{
    if s.len() > 0 && is_white_space(s.last()) {
        let b = lemma_trim_end_index(s.drop_last());
        assert(s.drop_last().subrange(0, b) =~= s.subrange(0, b));
        assert forall|i: int| b <= i < s.len() implies is_white_space(#[trigger] s[i]) by {
            if i < s.len() - 1 {
                assert(s[i] == s.drop_last()[i]);
            }
        }
        b
    } else {
        assert(s.subrange(0, s.len() as int) =~= s);
        s.len() as int
    }
}

/// Trimming leaves nothing exactly when the text is all whitespace.
pub proof fn law_trimmed_empty_exactly_when_blank(s: Seq<char>)
    ensures
        trimmed(s).len() == 0 <==> forall|i: int| 0 <= i < s.len() ==> is_white_space(#[trigger] s[i]),
{
    let a = lemma_trim_start_index(s);
    let t = s.subrange(a, s.len() as int);
    let b = lemma_trim_end_index(t);
    if trimmed(s).len() == 0 {
        assert(b == 0);
        assert forall|i: int| 0 <= i < s.len() implies is_white_space(#[trigger] s[i]) by {
            if i >= a {
                assert(t[i - a] == s[i]);
            }
        }
    }
    if forall|i: int| 0 <= i < s.len() ==> is_white_space(#[trigger] s[i]) {
        assert(a == s.len());
        assert(t.len() == 0);
    }
}

/// Text without whitespace at either end is its own trimming.
pub proof fn lemma_trimmed_fixed(t: Seq<char>)
    requires
        t.len() == 0 || (!is_white_space(t[0]) && !is_white_space(t.last())),
    ensures
        trimmed(t) == t,
{
}

/// Trimming keeps a contiguous part of the text, which then has no whitespace at
/// either end, so trimming again changes nothing.
pub proof fn lemma_trimmed_bounds(s: Seq<char>) -> (ab: (int, int))
    ensures
        0 <= ab.0 <= ab.1 <= s.len(),
        trimmed(s) == s.subrange(ab.0, ab.1),
        trimmed(s).len() == 0 || (!is_white_space(trimmed(s)[0]) && !is_white_space(
            trimmed(s).last(),
        )),
        trimmed(trimmed(s)) == trimmed(s),
{
    let a = lemma_trim_start_index(s);
    let t = s.subrange(a, s.len() as int);
    let b = lemma_trim_end_index(t);
    assert(t.subrange(0, b) =~= s.subrange(a, a + b));
    let u = trimmed(s);
    if u.len() > 0 {
        assert(u[0] == s[a]);
        assert(u.last() == t[b - 1]);
    }
    lemma_trimmed_fixed(u);
    (a, a + b)
}

/// No piece of a split list holds a separator.
pub proof fn lemma_split_pieces_no_separator(s: Seq<char>)
    ensures
        forall|k: int, i: int|
            0 <= k < split_pieces(s).len() && 0 <= i < split_pieces(s)[k].len()
                ==> !is_list_separator(#[trigger] split_pieces(s)[k][i]),
    decreases s.len(),
{
    if s.len() > 0 {
        lemma_split_pieces_no_separator(s.drop_last());
        lemma_split_pieces_nonempty(s.drop_last());
        let p = split_pieces(s.drop_last());
        if !is_list_separator(s.last()) {
            assert forall|k: int, i: int|
                0 <= k < split_pieces(s).len() && 0 <= i < split_pieces(s)[k].len()
                    implies !is_list_separator(#[trigger] split_pieces(s)[k][i]) by {
                if k == p.len() - 1 {
                    if i < p.last().len() {
                        assert(split_pieces(s)[k][i] == p[k][i]);
                    }
                } else {
                    assert(split_pieces(s)[k] == p[k]);
                }
            }
        } else {
            assert forall|k: int, i: int|
                0 <= k < split_pieces(s).len() && 0 <= i < split_pieces(s)[k].len()
                    implies !is_list_separator(#[trigger] split_pieces(s)[k][i]) by {
                assert(k < p.len());
                assert(split_pieces(s)[k] == p[k]);
            }
        }
    }
}

/// A well-formed list entry: not empty, already trimmed, and free of separators.
pub open spec fn is_clean_entry(e: Seq<char>) -> bool {
    &&& e.len() > 0
    &&& trimmed(e) == e
    &&& forall|i: int| 0 <= i < e.len() ==> !is_list_separator(#[trigger] e[i])
}

proof fn lemma_trimmed_nonempty_clean(ps: Seq<Seq<char>>)
    requires
        forall|k: int, i: int|
            0 <= k < ps.len() && 0 <= i < ps[k].len() ==> !is_list_separator(#[trigger] ps[k][i]),
    ensures
        forall|k: int| 0 <= k < trimmed_nonempty(ps).len() ==> is_clean_entry(
            #[trigger] trimmed_nonempty(ps)[k],
        ),
    decreases ps.len(),
{
    if ps.len() > 0 {
        let q = ps.drop_last();
        assert forall|k: int, i: int|
            0 <= k < q.len() && 0 <= i < q[k].len() implies !is_list_separator(#[trigger] q[k][i]) by {
            assert(q[k] == ps[k]);
        }
        lemma_trimmed_nonempty_clean(q);
        let x = ps.last();
        let (a, b) = lemma_trimmed_bounds(x);
        let t = trimmed(x);
        assert forall|i: int| 0 <= i < t.len() implies !is_list_separator(#[trigger] t[i]) by {
            assert(t[i] == x[i + a]);
            assert(x[i + a] == ps[ps.len() - 1][i + a]);
        }
        let acc = trimmed_nonempty(q);
        assert forall|k: int| 0 <= k < trimmed_nonempty(ps).len() implies is_clean_entry(
            #[trigger] trimmed_nonempty(ps)[k],
        ) by {
            if k < acc.len() {
                assert(trimmed_nonempty(ps)[k] == acc[k]);
            } else {
                assert(trimmed_nonempty(ps)[k] == t);
            }
        }
    }
}

/// Every entry of a list is clean.
pub proof fn lemma_list_entries_clean(s: Seq<char>)
    ensures
        forall|k: int| 0 <= k < list_entries(s).len() ==> is_clean_entry(#[trigger] list_entries(s)[k]),
{
    lemma_split_pieces_no_separator(s);
    lemma_trimmed_nonempty_clean(split_pieces(s));
}


/// A list is split at commas, newlines, spaces and tabs: no entry holds one of
/// them, and no entry is empty or starts or ends with whitespace.
pub proof fn law_list_entries_split_at_separators(s: Seq<char>)
    ensures
        forall|k: int, i: int|
            0 <= k < list_entries(s).len() && 0 <= i < list_entries(s)[k].len() ==> {
                let c = #[trigger] list_entries(s)[k][i];
                c != ',' && c != '\n' && c != ' ' && c != '\t'
            },
        forall|k: int|
            0 <= k < list_entries(s).len() ==> {
                let e = #[trigger] list_entries(s)[k];
                e.len() > 0 && !is_white_space(e[0]) && !is_white_space(e.last())
            },
{
    let es = list_entries(s);
    lemma_list_entries_clean(s);
    assert forall|k: int, i: int| 0 <= k < es.len() && 0 <= i < es[k].len() implies {
        let c = #[trigger] es[k][i];
        c != ',' && c != '\n' && c != ' ' && c != '\t'
    } by {
        assert(is_clean_entry(es[k]));
        assert(!is_list_separator(es[k][i]));
    }
    assert forall|k: int| 0 <= k < es.len() implies {
        let e = #[trigger] es[k];
        e.len() > 0 && !is_white_space(e[0]) && !is_white_space(e.last())
    } by {
        assert(is_clean_entry(es[k]));
        lemma_trimmed_bounds(es[k]);
    }
}

/// The texts with `sep` between each two (`[T]::join`).
pub open spec fn joined(xs: Seq<Seq<char>>, sep: char) -> Seq<char>
    decreases xs.len(),
{
    if xs.len() == 0 {
        Seq::empty()
    } else if xs.len() == 1 {
        xs[0]
    } else {
        joined(xs.drop_last(), sep).push(sep) + xs.last()
    }
}

proof fn lemma_split_pieces_append_plain(t: Seq<char>, w: Seq<char>)
    requires
        forall|i: int| 0 <= i < w.len() ==> !is_list_separator(#[trigger] w[i]),
    ensures
        split_pieces(t).len() >= 1,
        split_pieces(t + w) == split_pieces(t).update(
            split_pieces(t).len() - 1,
            split_pieces(t).last() + w,
        ),
    decreases w.len(),
{
    lemma_split_pieces_nonempty(t);
    let big = split_pieces(t);
    if w.len() == 0 {
        assert(t + w =~= t);
        assert(big.last() + w =~= big.last());
        assert(big.update(big.len() - 1, big.last() + w) =~= big);
    } else {
        let w0 = w.drop_last();
        lemma_split_pieces_append_plain(t, w0);
        assert((t + w).drop_last() =~= t + w0);
        assert((t + w).last() == w.last());
        assert(!is_list_separator(w[w.len() - 1]));
        let p = split_pieces(t + w0);
        assert(p.last() == big.last() + w0);
        assert((big.last() + w0).push(w.last()) =~= big.last() + w);
        assert(p.update(p.len() - 1, p.last().push(w.last())) =~= big.update(
            big.len() - 1,
            big.last() + w,
        ));
    }
}

proof fn lemma_split_pieces_of_joined(xs: Seq<Seq<char>>)
    requires
        xs.len() >= 1,
        forall|k: int, i: int|
            0 <= k < xs.len() && 0 <= i < xs[k].len() ==> !is_list_separator(#[trigger] xs[k][i]),
    ensures
        split_pieces(joined(xs, ',')) == xs,
    decreases xs.len(),
{
    let w = xs.last();
    assert forall|i: int| 0 <= i < w.len() implies !is_list_separator(#[trigger] w[i]) by {
        assert(w[i] == xs[xs.len() - 1][i]);
    }
    if xs.len() == 1 {
        let e = Seq::<char>::empty();
        lemma_split_pieces_append_plain(e, w);
        assert(e + w =~= w);
        assert(split_pieces(e) == seq![e]);
        assert(seq![e].update(0, e + w) =~= xs);
    } else {
        let q = xs.drop_last();
        assert forall|k: int, i: int|
            0 <= k < q.len() && 0 <= i < q[k].len() implies !is_list_separator(#[trigger] q[k][i]) by {
            assert(q[k] == xs[k]);
        }
        lemma_split_pieces_of_joined(q);
        let j = joined(q, ',').push(',');
        assert(j.drop_last() =~= joined(q, ','));
        assert(split_pieces(j) == q.push(Seq::<char>::empty()));
        lemma_split_pieces_append_plain(j, w);
        let e = Seq::<char>::empty();
        assert(e + w =~= w);
        assert(q.push(e).update(q.len() as int, e + w) =~= xs);
    }
}

proof fn lemma_trimmed_nonempty_of_clean(xs: Seq<Seq<char>>)
    requires
        forall|k: int| 0 <= k < xs.len() ==> is_clean_entry(#[trigger] xs[k]),
    ensures
        trimmed_nonempty(xs) == xs,
    decreases xs.len(),
{
    if xs.len() > 0 {
        let q = xs.drop_last();
        assert forall|k: int| 0 <= k < q.len() implies is_clean_entry(#[trigger] q[k]) by {
            assert(q[k] == xs[k]);
        }
        lemma_trimmed_nonempty_of_clean(q);
        assert(is_clean_entry(xs[xs.len() - 1]));
        assert(q.push(xs.last()) =~= xs);
    }
}

/// Joining clean entries with commas and splitting the result gives the entries
/// back.
pub proof fn lemma_list_entries_of_joined(xs: Seq<Seq<char>>)
    requires
        forall|k: int| 0 <= k < xs.len() ==> is_clean_entry(#[trigger] xs[k]),
    ensures
        list_entries(joined(xs, ',')) == xs,
{
    if xs.len() == 0 {
        let e = Seq::<char>::empty();
        assert(split_pieces(e) == seq![e]);
        assert(seq![e].drop_last() =~= Seq::<Seq<char>>::empty());
        assert(trimmed(e) == e);
        assert(trimmed_nonempty(seq![e]) == trimmed_nonempty(Seq::<Seq<char>>::empty()));
    } else {
        assert forall|k: int, i: int|
            0 <= k < xs.len() && 0 <= i < xs[k].len() implies !is_list_separator(#[trigger] xs[k][i]) by {
            assert(is_clean_entry(xs[k]));
        }
        lemma_split_pieces_of_joined(xs);
        lemma_trimmed_nonempty_of_clean(xs);
    }
}

} // verus!
