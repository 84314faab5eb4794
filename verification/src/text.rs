//! Character-level text handling: line splitting, whitespace tokenization,
//! joining, trimming and decimal numbers, each stated over `Seq<char>`.
use vstd::prelude::*;

verus! {

/// The characters that carry the Unicode `White_Space` property.
pub open spec fn is_ws(c: char) -> bool {
    let u = c as u32;
    ||| 0x09 <= u <= 0x0d
    ||| u == 0x20
    ||| u == 0x85
    ||| u == 0xa0
    ||| u == 0x1680
    ||| 0x2000 <= u <= 0x200a
    ||| u == 0x2028
    ||| u == 0x2029
    ||| u == 0x202f
    ||| u == 0x205f
    ||| u == 0x3000
}

/// Whether `c` is a Unicode whitespace character.
pub fn is_whitespace(c: char) -> (b: bool)
    ensures
        b == is_ws(c),
{
    let u = c as u32;
    (0x09 <= u && u <= 0x0d) || u == 0x20 || u == 0x85 || u == 0xa0 || u == 0x1680 || (0x2000
        <= u && u <= 0x200a) || u == 0x2028 || u == 0x2029 || u == 0x202f || u == 0x205f || u
        == 0x3000
}

/// A line without its carriage return, if it ends with one.
pub open spec fn strip_cr(l: Seq<char>) -> Seq<char> {
    if l.len() > 0 && l.last() == '\r' {
        l.drop_last()
    } else {
        l
    }
}

/// The lines of `s` when `cur` has already been read from the current line:
/// lines end at `'\n'` (a `'\r'` just before it is dropped), and a final line
/// without a terminator is kept only when it is not empty.
pub open spec fn lines_from(s: Seq<char>, cur: Seq<char>) -> Seq<Seq<char>>
    decreases s.len(),
{
    if s.len() == 0 {
        if cur.len() == 0 {
            seq![]
        } else {
            seq![cur]
        }
    } else if s[0] == '\n' {
        seq![strip_cr(cur)] + lines_from(s.drop_first(), seq![])
    } else {
        lines_from(s.drop_first(), cur.push(s[0]))
    }
}

/// The lines of a text, as `str::lines` gives them.
pub open spec fn lines(s: Seq<char>) -> Seq<Seq<char>> {
    lines_from(s, seq![])
}

/// The whitespace-separated words of `s` when the non-empty word `cur` has
/// already been read (or `cur` is empty, between words).
pub open spec fn words_from(s: Seq<char>, cur: Seq<char>) -> Seq<Seq<char>>
    decreases s.len(),
{
    if s.len() == 0 {
        if cur.len() == 0 {
            seq![]
        } else {
            seq![cur]
        }
    } else if is_ws(s[0]) {
        if cur.len() == 0 {
            words_from(s.drop_first(), cur)
        } else {
            seq![cur] + words_from(s.drop_first(), seq![])
        }
    } else {
        words_from(s.drop_first(), cur.push(s[0]))
    }
}

/// The whitespace-separated words of a text, as `str::split_whitespace` gives them.
pub open spec fn words(s: Seq<char>) -> Seq<Seq<char>> {
    words_from(s, seq![])
}

/// A word: a non-empty run of non-whitespace characters.
pub open spec fn is_word(w: Seq<char>) -> bool {
    w.len() > 0 && forall|i: int| 0 <= i < w.len() ==> !is_ws(#[trigger] w[i])
}

proof fn lemma_words_from_are_words(s: Seq<char>, cur: Seq<char>)
    requires
        forall|i: int| 0 <= i < cur.len() ==> !is_ws(#[trigger] cur[i]),
    ensures
        forall|i: int|
            0 <= i < words_from(s, cur).len() ==> is_word(#[trigger] words_from(s, cur)[i]),
    decreases s.len(),
{
    let w = words_from(s, cur);
    if s.len() == 0 {
        if cur.len() > 0 {
            assert(w =~= seq![cur]);
            assert(is_word(cur));
        } else {
            assert(w.len() == 0);
        }
    } else if is_ws(s[0]) {
        if cur.len() == 0 {
            lemma_words_from_are_words(s.drop_first(), cur);
            assert(w == words_from(s.drop_first(), cur));
        } else {
            lemma_words_from_are_words(s.drop_first(), seq![]);
            let r = words_from(s.drop_first(), seq![]);
            assert(w == seq![cur] + r);
            assert forall|i: int| 0 <= i < w.len() implies is_word(#[trigger] w[i]) by {
                if i > 0 {
                    assert(w[i] == r[i - 1]);
                } else {
                    assert(w[i] == cur);
                }
            }
        }
    } else {
        let c2 = cur.push(s[0]);
        assert forall|i: int| 0 <= i < c2.len() implies !is_ws(#[trigger] c2[i]) by {
            if i < cur.len() {
                assert(c2[i] == cur[i]);
            }
        }
        lemma_words_from_are_words(s.drop_first(), c2);
        assert(w == words_from(s.drop_first(), c2));
    }
}

/// Every element of `words(s)` is a word.
pub proof fn lemma_words_are_words(s: Seq<char>)
    ensures
        forall|i: int| 0 <= i < words(s).len() ==> is_word(#[trigger] words(s)[i]),
{
    lemma_words_from_are_words(s, seq![]);
}

/// The total number of characters of a sequence of lines.
pub open spec fn total_len(ls: Seq<Seq<char>>) -> nat
    decreases ls.len(),
{
    if ls.len() == 0 {
        0
    } else {
        ls[0].len() + total_len(ls.drop_first())
    }
}

proof fn lemma_lines_from_total_len(s: Seq<char>, cur: Seq<char>)
    ensures
        total_len(lines_from(s, cur)) <= s.len() + cur.len(),
    decreases s.len(),
{
    let r = lines_from(s, cur);
    if s.len() == 0 {
        if cur.len() > 0 {
            assert(r.drop_first() =~= seq![]);
            assert(total_len(r.drop_first()) == 0);
            assert(r[0] == cur);
        }
    } else if s[0] == '\n' {
        lemma_lines_from_total_len(s.drop_first(), seq![]);
        assert(r.drop_first() =~= lines_from(s.drop_first(), seq![]));
        assert(r[0] == strip_cr(cur));
        assert(strip_cr(cur).len() <= cur.len());
    } else {
        lemma_lines_from_total_len(s.drop_first(), cur.push(s[0]));
    }
}

/// The lines of a text hold at most as many characters as the text.
pub proof fn lemma_lines_total_len(s: Seq<char>)
    ensures
        total_len(lines(s)) <= s.len(),
{
    lemma_lines_from_total_len(s, seq![]);
}

/// The characters of the lines from position `i` on: those of line `i` and
/// those after it.
pub proof fn lemma_total_len_skip(ls: Seq<Seq<char>>, i: int)
    requires
        0 <= i < ls.len(),
    ensures
        total_len(ls.skip(i)) == ls[i].len() + total_len(ls.skip(i + 1)),
{
    assert(ls.skip(i).drop_first() =~= ls.skip(i + 1));
}

/// The characters of a sequence of lines: those of all but the last line,
/// and those of the last.
pub proof fn lemma_total_len_last(ls: Seq<Seq<char>>)
    requires
        ls.len() > 0,
    ensures
        total_len(ls) == total_len(ls.drop_last()) + ls.last().len(),
    decreases ls.len(),
{
    if ls.len() > 1 {
        lemma_total_len_last(ls.drop_first());
        assert(ls.drop_first().drop_last() =~= ls.drop_last().drop_first());
        assert(ls.drop_last()[0] == ls[0]);
        assert(ls.drop_first().last() == ls.last());
    } else {
        assert(ls.drop_last().len() == 0);
        assert(ls.drop_first().len() == 0);
        assert(total_len(ls.drop_last()) == 0);
        assert(total_len(ls.drop_first()) == 0);
        assert(ls.last() == ls[0]);
    }
}

proof fn lemma_words_from_len(s: Seq<char>, cur: Seq<char>)
    ensures
        words_from(s, cur).len() <= s.len() + cur.len(),
    decreases s.len(),
{
    if s.len() == 0 {
    } else if is_ws(s[0]) {
        lemma_words_from_len(s.drop_first(), seq![]);
        lemma_words_from_len(s.drop_first(), cur);
    } else {
        lemma_words_from_len(s.drop_first(), cur.push(s[0]));
    }
}

/// A text has at most as many words as characters.
pub proof fn lemma_words_len(s: Seq<char>)
    ensures
        words(s).len() <= s.len(),
{
    lemma_words_from_len(s, seq![]);
}

/// The parts joined with `sep` between each two of them.
pub open spec fn join(parts: Seq<Seq<char>>, sep: char) -> Seq<char>
    decreases parts.len(),
{
    if parts.len() == 0 {
        seq![]
    } else if parts.len() == 1 {
        parts[0]
    } else {
        join(parts.drop_last(), sep).push(sep) + parts.last()
    }
}

/// The views of a sequence of character vectors.
pub open spec fn views(v: Seq<Vec<char>>) -> Seq<Seq<char>> {
    v.map_values(|x: Vec<char>| x@)
}

proof fn lemma_views_push(v: Seq<Vec<char>>, x: Vec<char>)
    ensures
        views(v.push(x)) == views(v).push(x@),
{
    assert(views(v.push(x)) =~= views(v).push(x@));
}

/// Splits a text into its lines.
pub fn split_lines(v: &Vec<char>) -> (out: Vec<Vec<char>>)
    ensures
        views(out@) == lines(v@),
{
    let mut out: Vec<Vec<char>> = Vec::new();
    let mut cur: Vec<char> = Vec::new();
    let mut i: usize = 0;
    assert(v@.skip(0) =~= v@);
    assert(views(out@) =~= seq![]);
    while i < v.len()
        invariant
            i <= v.len(),
            views(out@) + lines_from(v@.skip(i as int), cur@) == lines(v@),
        decreases v.len() - i,
    {
        let c = v[i];
        assert(v@.skip(i as int).drop_first() =~= v@.skip(i + 1));
        if c == '\n' {
            let ghost old_cur = cur@;
            let n = cur.len();
            if n > 0 && cur[n - 1] == '\r' {
                cur.pop();
            }
            assert(cur@ == strip_cr(old_cur));
            proof {
                lemma_views_push(out@, cur);
            }
            out.push(cur);
            cur = Vec::new();
            assert(views(out@) + lines_from(v@.skip(i + 1), cur@) =~= lines(v@));
        } else {
            cur.push(c);
        }
        i += 1;
    }
    if cur.len() > 0 {
        proof {
            lemma_views_push(out@, cur);
        }
        out.push(cur);
        assert(views(out@) =~= lines(v@));
    } else {
        assert(views(out@) =~= lines(v@));
    }
    out
}

/// Splits a text into its whitespace-separated words.
pub fn split_words(v: &Vec<char>) -> (out: Vec<Vec<char>>)
    ensures
        views(out@) == words(v@),
{
    let mut out: Vec<Vec<char>> = Vec::new();
    let mut cur: Vec<char> = Vec::new();
    let mut i: usize = 0;
    assert(v@.skip(0) =~= v@);
    assert(views(out@) =~= seq![]);
    while i < v.len()
        invariant
            i <= v.len(),
            views(out@) + words_from(v@.skip(i as int), cur@) == words(v@),
        decreases v.len() - i,
    {
        let c = v[i];
        assert(v@.skip(i as int).drop_first() =~= v@.skip(i + 1));
        if is_whitespace(c) {
            if cur.len() > 0 {
                proof {
                    lemma_views_push(out@, cur);
                }
                out.push(cur);
                cur = Vec::new();
                assert(views(out@) + words_from(v@.skip(i + 1), cur@) =~= words(v@));
            }
        } else {
            cur.push(c);
        }
        i += 1;
    }
    if cur.len() > 0 {
        proof {
            lemma_views_push(out@, cur);
        }
        out.push(cur);
        assert(views(out@) =~= words(v@));
    } else {
        assert(views(out@) =~= words(v@));
    }
    out
}

/// Joins the parts with `sep` between each two of them.
pub fn join_with(parts: &Vec<Vec<char>>, sep: char) -> (out: Vec<char>)
    ensures
        out@ == join(views(parts@), sep),
{
    let mut out: Vec<char> = Vec::new();
    let mut i: usize = 0;
    while i < parts.len()
        invariant
            i <= parts.len(),
            out@ == join(views(parts@).take(i as int), sep),
        decreases parts.len() - i,
    {
        let ghost before = views(parts@).take(i as int);
        assert(views(parts@).take(i + 1).drop_last() =~= before);
        if i > 0 {
            out.push(sep);
        }
        let mut j: usize = 0;
        let ghost start = out@;
        let p = &parts[i];
        while j < p.len()
            invariant
                j <= p.len(),
                out@ == start + p@.take(j as int),
            decreases p.len() - j,
        {
            out.push(p[j]);
            j += 1;
            assert(out@ =~= start + p@.take(j as int));
        }
        assert(p@.take(j as int) =~= p@);
        i += 1;
        assert(out@ =~= join(views(parts@).take(i as int), sep));
    }
    assert(views(parts@).take(i as int) =~= views(parts@));
    out
}


/// `s` without its leading whitespace.
pub open spec fn trim_start(s: Seq<char>) -> Seq<char>
    decreases s.len(),
{
    if s.len() > 0 && is_ws(s[0]) {
        trim_start(s.drop_first())
    } else {
        s
    }
}

/// `s` without its trailing whitespace.
pub open spec fn trim_end(s: Seq<char>) -> Seq<char>
    decreases s.len(),
{
    if s.len() > 0 && is_ws(s.last()) {
        trim_end(s.drop_last())
    } else {
        s
    }
}

/// `s` without leading and trailing whitespace, as `str::trim` gives it.
pub open spec fn trim(s: Seq<char>) -> Seq<char> {
    trim_end(trim_start(s))
}

/// Removes leading and trailing whitespace.
pub fn trim_chars(v: &Vec<char>) -> (out: Vec<char>)
    ensures
        out@ == trim(v@),
{
    let n = v.len();
    let mut a: usize = 0;
    assert(v@.skip(0) =~= v@);
    while a < n && is_whitespace(v[a])
        invariant
            a <= n,
            n == v.len(),
            trim_start(v@.skip(a as int)) == trim_start(v@),
        decreases n - a,
    {
        assert(v@.skip(a as int).drop_first() =~= v@.skip(a + 1));
        a += 1;
    }
    assert(trim_start(v@) == v@.skip(a as int));
    let mut b: usize = n;
    assert(v@.skip(a as int) =~= v@.subrange(a as int, b as int));
    while b > a && is_whitespace(v[b - 1])
        invariant
            a <= b <= n,
            n == v.len(),
            trim_end(v@.subrange(a as int, b as int)) == trim(v@),
        decreases b - a,
    {
        assert(v@.subrange(a as int, b as int).drop_last() =~= v@.subrange(a as int, b - 1));
        b -= 1;
    }
    assert(trim_end(v@.subrange(a as int, b as int)) == v@.subrange(a as int, b as int));
    let mut out: Vec<char> = Vec::new();
    let mut k: usize = a;
    while k < b
        invariant
            a <= k <= b <= n,
            n == v.len(),
            out@ == v@.subrange(a as int, k as int),
        decreases b - k,
    {
        out.push(v[k]);
        k += 1;
        assert(out@ =~= v@.subrange(a as int, k as int));
    }
    out
}

/// The part of `s` before the first occurrence of `c` (all of `s` if there is none).
pub open spec fn before_char(s: Seq<char>, c: char) -> Seq<char>
    decreases s.len(),
{
    if s.len() == 0 {
        s
    } else if s[0] == c {
        seq![]
    } else {
        seq![s[0]] + before_char(s.drop_first(), c)
    }
}

/// The characters before the first occurrence of `c`.
pub fn chars_before(v: &Vec<char>, c: char) -> (out: Vec<char>)
    ensures
        out@ == before_char(v@, c),
{
    let mut out: Vec<char> = Vec::new();
    let mut k: usize = 0;
    assert(v@.skip(0) =~= v@);
    while k < v.len() && v[k] != c
        invariant
            k <= v.len(),
            out@ == v@.take(k as int),
            before_char(v@, c) == out@ + before_char(v@.skip(k as int), c),
        decreases v.len() - k,
    {
        assert(v@.skip(k as int).drop_first() =~= v@.skip(k + 1));
        out.push(v[k]);
        k += 1;
        assert(out@ =~= v@.take(k as int));
        assert(before_char(v@, c) =~= out@ + before_char(v@.skip(k as int), c));
    }
    assert(before_char(v@, c) =~= out@);
    out
}

/// Whether `c` is one of the ASCII digits `0` to `9`.
pub open spec fn is_digit(c: char) -> bool {
    48 <= (c as u32) <= 57
}

/// The value of an ASCII digit.
pub open spec fn digit_value(c: char) -> nat {
    ((c as u32) - 48) as nat
}

/// The value of a sequence of decimal digits, most significant first.
pub open spec fn digits_value(s: Seq<char>) -> nat
    decreases s.len(),
{
    if s.len() == 0 {
        0
    } else {
        digits_value(s.drop_last()) * 10 + digit_value(s.last())
    }
}

/// Whether every character of `s` is an ASCII digit.
pub open spec fn all_digits(s: Seq<char>) -> bool {
    forall|i: int| 0 <= i < s.len() ==> is_digit(#[trigger] s[i])
}

/// The digits of an unsigned number, without an optional leading `+`.
pub open spec fn unsigned_digits(s: Seq<char>) -> Seq<char> {
    if s.len() > 0 && s[0] == '+' {
        s.drop_first()
    } else {
        s
    }
}

/// What `str::parse::<u8>` gives: an optional `+` followed by at least one
/// decimal digit, with a value that fits in a byte.
pub open spec fn parse_u8(s: Seq<char>) -> Option<u8> {
    let d = unsigned_digits(s);
    if d.len() > 0 && all_digits(d) && digits_value(d) <= 255 {
        Some(digits_value(d) as u8)
    } else {
        None
    }
}

proof fn lemma_digits_value_prefix(s: Seq<char>, k: int)
    requires
        0 <= k <= s.len(),
    ensures
        digits_value(s.take(k)) <= digits_value(s),
    decreases s.len() - k,
{
    if k < s.len() {
        lemma_digits_value_prefix(s, k + 1);
        assert(s.take(k + 1).drop_last() =~= s.take(k));
    } else {
        assert(s.take(k) =~= s);
    }
}

/// Parses a byte written in decimal.
pub fn parse_u8_chars(v: &Vec<char>) -> (r: Option<u8>)
    ensures
        r == parse_u8(v@),
{
    let n = v.len();
    let start: usize = if n > 0 && v[0] == '+' {
        1
    } else {
        0
    };
    let ghost d = unsigned_digits(v@);
    assert(d =~= v@.skip(start as int));
    if start >= n {
        return None;
    }
    let mut acc: u32 = 0;
    let mut i: usize = start;
    assert(d.take(0) =~= seq![]);
    while i < n
        invariant
            start <= i <= n,
            n == v.len(),
            d == v@.skip(start as int),
            d == unsigned_digits(v@),
            acc == digits_value(d.take(i - start)),
            acc <= 255,
            all_digits(d.take(i - start)),
        decreases n - i,
    {
        let c = v[i];
        let u = c as u32;
        assert(d[i - start] == c);
        if u < 48 || u > 57 {
            assert(!is_digit(d[i - start]));
            assert(!all_digits(d));
            return None;
        }
        assert(d.take(i + 1 - start).drop_last() =~= d.take(i - start));
        assert(d.take(i + 1 - start).last() == c);
        acc = acc * 10 + (u - 48);
        i += 1;
        assert(all_digits(d.take(i - start)));
        if acc > 255 {
            proof {
                lemma_digits_value_prefix(d, i - start);
            }
            assert(digits_value(d) > 255);
            return None;
        }
    }
    assert(d.take(i - start) =~= d);
    Some(acc as u8)
}

/// The character of a decimal digit.
pub open spec fn digit_char(d: nat) -> char {
    (d + 48) as char
}

/// The decimal representation of `n`, without leading zeros.
pub open spec fn decimal(n: nat) -> Seq<char>
    decreases n,
{
    if n < 10 {
        seq![digit_char(n)]
    } else {
        decimal(n / 10).push(digit_char(n % 10))
    }
}

/// Writes a number in decimal.
pub fn decimal_chars(n: usize) -> (out: Vec<char>)
    ensures
        out@ == decimal(n as nat),
    decreases n,
{
    let d = (n % 10) as u8;
    let c = (d + 48) as char;
    if n < 10 {
        let mut out: Vec<char> = Vec::new();
        out.push(c);
        assert(out@ =~= decimal(n as nat));
        out
    } else {
        let mut out = decimal_chars(n / 10);
        out.push(c);
        out
    }
}

/// Whether two character vectors hold the same characters.
pub fn chars_eq(a: &[char], b: &[char]) -> (r: bool)
    ensures
        r == (a@ == b@),
{
    if a.len() != b.len() {
        return false;
    }
    let mut i: usize = 0;
    while i < a.len()
        invariant
            i <= a.len(),
            a.len() == b.len(),
            forall|j: int| 0 <= j < i ==> a@[j] == b@[j],
        decreases a.len() - i,
    {
        if a[i] != b[i] {
            return false;
        }
        i += 1;
    }
    assert(a@ =~= b@);
    true
}

/// Calls `String::push`, which appends one character to the string.
#[verifier::external_body]
fn push_char(s: &mut String, c: char)
    ensures
        final(s)@ == old(s)@.push(c),
{
    s.push(c);
}

/// The characters of a string.
pub fn chars_of(s: &str) -> (v: Vec<char>)
    ensures
        v@ == s@,
{
    let mut v: Vec<char> = Vec::new();
    for c in it: s.chars()
        invariant
            v@ == it.seq().take(it.index() as int),
    {
        v.push(c);
    }
    v
}

/// The string of the given characters.
pub fn string_of(v: &Vec<char>) -> (s: String)
    ensures
        s@ == v@,
{
    let mut s = String::new();
    for i in 0..v.len()
        invariant
            s@ == v@.take(i as int),
    {
        push_char(&mut s, v[i]);
    }
    s
}

/// The lines of a string.
pub fn text_lines(s: &str) -> (out: Vec<Vec<char>>)
    ensures
        views(out@) == lines(s@),
        total_len(views(out@)) <= usize::MAX,
{
    let v = chars_of(s);
    proof {
        lemma_lines_total_len(v@);
        assert(v@.len() == v.len());
    }
    split_lines(&v)
}

/// The first `k` characters.
pub fn prefix_chars(v: &Vec<char>, k: usize) -> (out: Vec<char>)
    requires
        k <= v.len(),
    ensures
        out@ == v@.take(k as int),
{
    let mut out: Vec<char> = Vec::new();
    let mut i: usize = 0;
    while i < k
        invariant
            i <= k <= v.len(),
            out@ == v@.take(i as int),
        decreases k - i,
    {
        out.push(v[i]);
        i += 1;
        assert(out@ =~= v@.take(i as int));
    }
    out
}

/// The string of the given lines, joined with newlines.
pub fn lines_text(parts: &Vec<Vec<char>>) -> (s: String)
    ensures
        s@ == join(views(parts@), '\n'),
        s@.len() <= usize::MAX,
{
    let v = join_with(parts, '\n');
    assert(v@.len() == v.len());
    string_of(&v)
}

/// The lower-case form of a string, as `str::to_lowercase` computes it.
pub uninterp spec fn lowercase(s: Seq<char>) -> Seq<char>;

/// Calls `str::to_lowercase`. The contract claims only that the result is a
/// function of the argument's characters, named `lowercase`; what the
/// Unicode lower-case mapping gives for each character is left unsaid.
#[verifier::external_body]
pub(crate) fn to_lowercase(s: &str) -> (r: String)
    ensures
        r@ == lowercase(s@),
{
    s.to_lowercase()
}

} // verus!
