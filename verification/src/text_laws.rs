//! Laws of the text functions: reading back the lines or words that were
//! joined gives them back.
use vstd::prelude::*;
use crate::text::{
    all_digits, is_digit, trim, trim_end, trim_start, before_char, decimal, digit_char, is_word, is_ws, join, lines, lines_from, strip_cr, words,
    words_from,
};

verus! {

/// Joining a first part and the rest puts the separator between them.
pub proof fn lemma_join_front(ls: Seq<Seq<char>>, sep: char)
    requires
        ls.len() >= 2,
    ensures
        join(ls, sep) == ls[0] + seq![sep] + join(ls.drop_first(), sep),
    decreases ls.len(),
{
    if ls.len() == 2 {
        assert(ls.drop_last() =~= seq![ls[0]]);
        assert(ls.drop_first() =~= seq![ls[1]]);
        assert(join(ls.drop_last(), sep) == ls[0]);
        assert(join(ls.drop_first(), sep) == ls[1]);
        assert(join(ls, sep) =~= ls[0] + seq![sep] + join(ls.drop_first(), sep));
    } else {
        let init = ls.drop_last();
        lemma_join_front(init, sep);
        assert(init.drop_first() =~= ls.drop_first().drop_last());
        assert(ls.drop_first().last() == ls.last());
        assert(join(ls, sep) =~= ls[0] + seq![sep] + join(ls.drop_first(), sep));
    }
}

proof fn lemma_lines_from_no_newline(a: Seq<char>, s: Seq<char>, cur: Seq<char>)
    requires
        forall|i: int| 0 <= i < a.len() ==> a[i] != '\n',
    ensures
        lines_from(a + s, cur) == lines_from(s, cur + a),
    decreases a.len(),
{
    if a.len() == 0 {
        assert(a + s =~= s);
        assert(cur + a =~= cur);
    } else {
        assert((a + s).drop_first() =~= a.drop_first() + s);
        assert((a + s)[0] == a[0]);
        lemma_lines_from_no_newline(a.drop_first(), s, cur.push(a[0]));
        assert(cur.push(a[0]) + a.drop_first() =~= cur + a);
    }
}

/// Whether a sequence of lines can be joined with newlines and read back:
/// no line holds a newline or ends with a carriage return, and the last line
/// is not empty.
pub open spec fn lines_joinable(ls: Seq<Seq<char>>) -> bool {
    &&& forall|i: int, j: int| 0 <= i < ls.len() && 0 <= j < ls[i].len() ==> #[trigger] ls[i][j] != '\n'
    &&& forall|i: int| 0 <= i < ls.len() && ls[i].len() > 0 ==> #[trigger] ls[i].last() != '\r'
    &&& ls.len() > 0 ==> ls.last().len() > 0
}

/// Reading the lines of lines joined with newlines gives them back.
pub proof fn lemma_lines_join(ls: Seq<Seq<char>>)
    requires
        lines_joinable(ls),
    ensures
        lines(join(ls, '\n')) == ls,
    decreases ls.len(),
{
    if ls.len() == 0 {
        assert(lines(join(ls, '\n')) =~= ls);
    } else if ls.len() == 1 {
        let a = ls[0];
        assert(forall|j: int| 0 <= j < a.len() ==> a[j] != '\n') by {
            assert forall|j: int| 0 <= j < a.len() implies a[j] != '\n' by {
                assert(ls[0][j] != '\n');
            }
        }
        lemma_lines_from_no_newline(a, seq![], seq![]);
        assert(a + seq![] =~= a);
        assert(seq![] + a =~= a);
        assert(lines(join(ls, '\n')) =~= ls);
    } else {
        let a = ls[0];
        let rest = ls.drop_first();
        assert(lines_joinable(rest)) by {
            assert forall|i: int, j: int| 0 <= i < rest.len() && 0 <= j < rest[i].len() implies #[trigger] rest[i][j] != '\n' by {
                assert(rest[i] == ls[i + 1]);
                assert(ls[i + 1][j] != '\n');
            }
            assert forall|i: int| 0 <= i < rest.len() && rest[i].len() > 0 implies #[trigger] rest[i].last() != '\r' by {
                assert(rest[i] == ls[i + 1]);
            }
        }
        lemma_lines_join(rest);
        lemma_join_front(ls, '\n');
        let j = join(rest, '\n');
        assert(forall|k: int| 0 <= k < a.len() ==> a[k] != '\n') by {
            assert forall|k: int| 0 <= k < a.len() implies a[k] != '\n' by {
                assert(ls[0][k] != '\n');
            }
        }
        assert(a + seq!['\n'] + j =~= a + (seq!['\n'] + j));
        lemma_lines_from_no_newline(a, seq!['\n'] + j, seq![]);
        assert(seq![] + a =~= a);
        assert((seq!['\n'] + j).drop_first() =~= j);
        assert(strip_cr(a) == a) by {
            if a.len() > 0 {
                assert(ls[0].last() != '\r');
            }
        }
        assert(lines(join(ls, '\n')) =~= seq![a] + rest);
        assert(seq![a] + rest =~= ls);
    }
}

proof fn lemma_words_from_no_ws(a: Seq<char>, s: Seq<char>, cur: Seq<char>)
    requires
        forall|i: int| 0 <= i < a.len() ==> !is_ws(#[trigger] a[i]),
    ensures
        words_from(a + s, cur) == words_from(s, cur + a),
    decreases a.len(),
{
    if a.len() == 0 {
        assert(a + s =~= s);
        assert(cur + a =~= cur);
    } else {
        assert((a + s).drop_first() =~= a.drop_first() + s);
        assert((a + s)[0] == a[0]);
        assert(!is_ws(a[0]));
        lemma_words_from_no_ws(a.drop_first(), s, cur.push(a[0]));
        assert(cur.push(a[0]) + a.drop_first() =~= cur + a);
    }
}

/// Reading the words of words joined with spaces gives them back.
pub proof fn lemma_words_join(ws: Seq<Seq<char>>)
    requires
        forall|i: int| 0 <= i < ws.len() ==> is_word(#[trigger] ws[i]),
    ensures
        words(join(ws, ' ')) == ws,
    decreases ws.len(),
{
    if ws.len() == 0 {
        assert(words(join(ws, ' ')) =~= ws);
    } else {
        let a = ws[0];
        assert(is_word(a));
        if ws.len() == 1 {
            lemma_words_from_no_ws(a, seq![], seq![]);
            assert(a + seq![] =~= a);
            assert(seq![] + a =~= a);
            assert(words(join(ws, ' ')) =~= ws);
        } else {
            let rest = ws.drop_first();
            assert forall|i: int| 0 <= i < rest.len() implies is_word(#[trigger] rest[i]) by {
                assert(rest[i] == ws[i + 1]);
            }
            lemma_words_join(rest);
            lemma_join_front(ws, ' ');
            let j = join(rest, ' ');
            assert(a + seq![' '] + j =~= a + (seq![' '] + j));
            lemma_words_from_no_ws(a, seq![' '] + j, seq![]);
            assert(seq![] + a =~= a);
            assert((seq![' '] + j).drop_first() =~= j);
            assert(is_ws(' '));
            assert(words(join(ws, ' ')) =~= seq![a] + rest);
            assert(seq![a] + rest =~= ws);
        }
    }
}


/// Cutting at the first `c` leaves no `c`, and cutting again changes nothing.
pub proof fn lemma_before_char_idempotent(s: Seq<char>, c: char)
    ensures
        !before_char(s, c).contains(c),
        before_char(before_char(s, c), c) == before_char(s, c),
    decreases s.len(),
{
    if s.len() > 0 && s[0] != c {
        lemma_before_char_idempotent(s.drop_first(), c);
        let r = before_char(s.drop_first(), c);
        let b = seq![s[0]] + r;
        assert(b.drop_first() =~= r);
        assert(b[0] == s[0]);
        if b.contains(c) {
            let k = choose|k: int| 0 <= k < b.len() && b[k] == c;
            assert(k > 0);
            assert(r[k - 1] == c);
        }
    }
}

/// A number written in decimal is a word.
pub proof fn lemma_decimal_is_word(n: nat)
    ensures
        is_word(decimal(n)),
    decreases n,
{
    if n >= 10 {
        lemma_decimal_is_word(n / 10);
        let d = decimal(n / 10);
        let c = digit_char(n % 10);
        assert(!is_ws(c));
        assert forall|i: int| 0 <= i < d.push(c).len() implies !is_ws(#[trigger] d.push(c)[i]) by {
            if i < d.len() {
                assert(d.push(c)[i] == d[i]);
            }
        }
    } else {
        assert(!is_ws(digit_char(n)));
        assert(decimal(n) =~= seq![digit_char(n)]);
    }
}

/// Replacing the last word of a line by a number keeps the line's words but
/// the last, and its number of words.
pub proof fn lemma_replace_last_word(ws: Seq<Seq<char>>, n: nat)
    requires
        ws.len() > 0,
        forall|i: int| 0 <= i < ws.len() ==> is_word(#[trigger] ws[i]),
    ensures
        words(join(ws.drop_last().push(decimal(n)), ' ')) == ws.drop_last().push(decimal(n)),
        words(join(ws.drop_last().push(decimal(n)), ' ')).len() == ws.len(),
{
    let r = ws.drop_last().push(decimal(n));
    lemma_decimal_is_word(n);
    assert forall|i: int| 0 <= i < r.len() implies is_word(#[trigger] r[i]) by {
        if i < ws.len() - 1 {
            assert(r[i] == ws[i]);
        }
    }
    lemma_words_join(r);
}


/// Words joined by spaces hold no newline and do not end with a carriage
/// return; they are empty only when there are no words.
pub proof fn lemma_join_words_shape(ws: Seq<Seq<char>>)
    requires
        forall|i: int| 0 <= i < ws.len() ==> is_word(#[trigger] ws[i]),
    ensures
        forall|j: int| 0 <= j < join(ws, ' ').len() ==> #[trigger] join(ws, ' ')[j] != '\n',
        ws.len() > 0 ==> join(ws, ' ').len() > 0 && join(ws, ' ').last() != '\r',
    decreases ws.len(),
{
    if ws.len() == 1 {
        assert(is_word(ws[0]));
        assert forall|j: int| 0 <= j < join(ws, ' ').len() implies #[trigger] join(ws, ' ')[j] != '\n' by {
            assert(!is_ws(ws[0][j]));
        }
        assert(!is_ws(ws[0][ws[0].len() - 1]));
    } else if ws.len() > 1 {
        let init = ws.drop_last();
        assert forall|i: int| 0 <= i < init.len() implies is_word(#[trigger] init[i]) by {
            assert(init[i] == ws[i]);
        }
        lemma_join_words_shape(init);
        let a = join(init, ' ').push(' ');
        let b = ws.last();
        assert(is_word(ws[ws.len() - 1]));
        assert forall|j: int| 0 <= j < join(ws, ' ').len() implies #[trigger] join(ws, ' ')[j] != '\n' by {
            if j < a.len() {
                assert(join(ws, ' ')[j] == a[j]);
                if j < join(init, ' ').len() {
                    assert(a[j] == join(init, ' ')[j]);
                }
            } else {
                assert(join(ws, ' ')[j] == b[j - a.len()]);
                assert(!is_ws(b[j - a.len()]));
            }
        }
        assert(join(ws, ' ').last() == b.last());
        assert(!is_ws(b[b.len() - 1]));
    }
}


/// Whether a line has words, holds no newline and does not end with a
/// carriage return: a line that can be written and read back.
pub open spec fn word_line(l: Seq<char>) -> bool {
    &&& words(l).len() > 0
    &&& forall|j: int| 0 <= j < l.len() ==> #[trigger] l[j] != '\n'
    &&& l.len() > 0 && l.last() != '\r'
}

/// Words joined by spaces form a line that reads back as those words.
pub proof fn lemma_joined_words_line(ws: Seq<Seq<char>>)
    requires
        ws.len() > 0,
        forall|i: int| 0 <= i < ws.len() ==> is_word(#[trigger] ws[i]),
    ensures
        word_line(join(ws, ' ')),
        words(join(ws, ' ')) == ws,
{
    lemma_words_join(ws);
    lemma_join_words_shape(ws);
}

/// Lines that each have words, joined with newlines, read back as themselves.
pub proof fn lemma_word_lines_read_back(ls: Seq<Seq<char>>)
    requires
        forall|i: int| 0 <= i < ls.len() ==> word_line(#[trigger] ls[i]),
    ensures
        lines(join(ls, '\n')) == ls,
{
    assert forall|i: int, j: int| 0 <= i < ls.len() && 0 <= j < ls[i].len() implies #[trigger] ls[i][j]
        != '\n' by {
        assert(word_line(ls[i]));
    }
    assert forall|i: int| 0 <= i < ls.len() && ls[i].len() > 0 implies #[trigger] ls[i].last()
        != '\r' by {
        assert(word_line(ls[i]));
    }
    if ls.len() > 0 {
        assert(word_line(ls[ls.len() - 1]));
    }
    lemma_lines_join(ls);
}


/// The part before the first `c` is a prefix.
pub proof fn lemma_before_char_prefix(s: Seq<char>, c: char)
    ensures
        before_char(s, c).len() <= s.len(),
        before_char(s, c) == s.take(before_char(s, c).len() as int),
    decreases s.len(),
{
    if s.len() > 0 && s[0] != c {
        lemma_before_char_prefix(s.drop_first(), c);
        let r = before_char(s.drop_first(), c);
        assert(seq![s[0]] + r =~= s.take(r.len() + 1 as int));
    } else if s.len() > 0 {
        assert(before_char(s, c) =~= s.take(0));
    } else {
        assert(s.take(0) =~= s);
    }
}

proof fn lemma_trim_start_props(s: Seq<char>)
    ensures
        trim_start(s).len() <= s.len(),
        trim_start(s) == s.skip(s.len() - trim_start(s).len()),
        trim_start(s).len() > 0 ==> !is_ws(trim_start(s)[0]),
    decreases s.len(),
{
    if s.len() > 0 && is_ws(s[0]) {
        lemma_trim_start_props(s.drop_first());
        let t = trim_start(s.drop_first());
        assert(s.drop_first().skip(s.drop_first().len() - t.len()) =~= s.skip(s.len() - t.len()));
    } else {
        assert(s.skip(0) =~= s);
    }
}

proof fn lemma_trim_end_props(s: Seq<char>)
    ensures
        trim_end(s).len() <= s.len(),
        trim_end(s) == s.take(trim_end(s).len() as int),
        trim_end(s).len() > 0 ==> !is_ws(trim_end(s).last()),
    decreases s.len(),
{
    if s.len() > 0 && is_ws(s.last()) {
        lemma_trim_end_props(s.drop_last());
        let t = trim_end(s.drop_last());
        assert(s.drop_last().take(t.len() as int) =~= s.take(t.len() as int));
    } else {
        assert(s.take(s.len() as int) =~= s);
    }
}

/// A trimmed text is a part of the text that neither starts nor ends with
/// whitespace.
pub proof fn lemma_trim_props(s: Seq<char>)
    ensures
        trim(s).len() <= s.len(),
        exists|a: int| 0 <= a <= s.len() - trim(s).len() && #[trigger] s.subrange(a, a + trim(s).len()) == trim(s),
        trim(s).len() > 0 ==> !is_ws(trim(s)[0]) && !is_ws(trim(s).last()),
{
    lemma_trim_start_props(s);
    let t = trim_start(s);
    lemma_trim_end_props(t);
    let a = s.len() - t.len();
    let r = trim(s);
    assert(s.subrange(a, a + r.len()) =~= r);
    if r.len() > 0 {
        assert(r[0] == t[0]);
    }
}

/// A text with a non-whitespace character has a word.
pub proof fn lemma_words_nonempty(s: Seq<char>, i: int)
    requires
        0 <= i < s.len(),
        !is_ws(s[i]),
    ensures
        words(s).len() > 0,
{
    lemma_words_from_nonempty(s, seq![], i);
}

proof fn lemma_words_from_nonempty(s: Seq<char>, cur: Seq<char>, i: int)
    requires
        0 <= i < s.len(),
        !is_ws(s[i]),
    ensures
        words_from(s, cur).len() > 0,
    decreases s.len(),
{
    if i == 0 {
        if !is_ws(s[0]) {
            lemma_words_from_nonempty_cur(s.drop_first(), cur.push(s[0]));
        }
    } else {
        assert(s.drop_first()[i - 1] == s[i]);
        if is_ws(s[0]) {
            if cur.len() == 0 {
                lemma_words_from_nonempty(s.drop_first(), cur, i - 1);
            }
        } else {
            lemma_words_from_nonempty(s.drop_first(), cur.push(s[0]), i - 1);
        }
    }
}

proof fn lemma_words_from_nonempty_cur(s: Seq<char>, cur: Seq<char>)
    requires
        cur.len() > 0,
    ensures
        words_from(s, cur).len() > 0,
    decreases s.len(),
{
    if s.len() > 0 && !is_ws(s[0]) {
        lemma_words_from_nonempty_cur(s.drop_first(), cur.push(s[0]));
    }
}


/// A number written in decimal is a non-empty string of digits.
pub proof fn lemma_decimal_digits(n: nat)
    ensures
        decimal(n).len() > 0,
        all_digits(decimal(n)),
    decreases n,
{
    if n >= 10 {
        lemma_decimal_digits(n / 10);
        let d = decimal(n / 10);
        let c = digit_char(n % 10);
        assert(is_digit(c));
        assert forall|i: int| 0 <= i < d.push(c).len() implies is_digit(#[trigger] d.push(c)[i]) by {
            if i < d.len() {
                assert(d.push(c)[i] == d[i]);
            }
        }
    } else {
        assert(decimal(n) =~= seq![digit_char(n)]);
        assert(is_digit(digit_char(n)));
    }
}

/// A text without `c` is left whole by cutting at `c`.
pub proof fn lemma_before_char_absent(s: Seq<char>, c: char)
    requires
        !s.contains(c),
    ensures
        before_char(s, c) == s,
    decreases s.len(),
{
    if s.len() > 0 {
        assert(s[0] != c);
        assert(!s.drop_first().contains(c)) by {
            if s.drop_first().contains(c) {
                let k = choose|k: int| 0 <= k < s.drop_first().len() && s.drop_first()[k] == c;
                assert(s[k + 1] == c);
            }
        }
        lemma_before_char_absent(s.drop_first(), c);
        assert(seq![s[0]] + s.drop_first() =~= s);
    }
}

/// A text that neither starts nor ends with whitespace is its own trim.
pub proof fn lemma_trim_fixed(s: Seq<char>)
    requires
        s.len() > 0,
        !is_ws(s[0]),
        !is_ws(s.last()),
    ensures
        trim(s) == s,
{
    assert(trim_start(s) == s);
    assert(trim_end(s) == s);
}

} // verus!
