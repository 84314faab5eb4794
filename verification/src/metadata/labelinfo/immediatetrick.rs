//! Immediate operands (`$value`): each distinct value is stored once at the
//! top of memory, and the operand is replaced by that address.
use vstd::prelude::*;
use crate::metadata::labelinfo::label::no_blank_lines;
use crate::metadata::Metadata;
use crate::text_laws::{
    lemma_decimal_is_word, lemma_joined_words_line, lemma_replace_last_word, lemma_word_lines_read_back,
    lemma_words_join, word_line,
};
use crate::text::{
    is_word, lemma_words_are_words,
    decimal, decimal_chars, join, join_with, lines, lines_text, parse_u8, parse_u8_chars, split_words,
    text_lines, views, words,
};

verus! {

/// The character that marks an immediate operand.
pub const IMMEDIATE_ADDR_CHAR: char = '$';

/// A value stored at an address of memory to serve an immediate operand.
#[derive(Debug)]
pub struct ImmediateAddressing {
    pub value: u8,
    pub addr: usize,
}

/// Whether a word is an immediate operand: it starts with `$`.
pub open spec fn is_immediate(w: Seq<char>) -> bool {
    w.len() > 0 && w[0] == IMMEDIATE_ADDR_CHAR
}

/// The value that an immediate operand writes after its `$`.
pub open spec fn immediate_value(w: Seq<char>) -> u8 {
    parse_u8(w.drop_first())->0
}

/// Whether an immediate operand, if the word is one, writes a byte after its `$`.
pub open spec fn immediate_ok(w: Seq<char>) -> bool {
    is_immediate(w) ==> parse_u8(w.drop_first()) is Some
}

/// The last position in `imms` that holds the value `v`, or -1.
pub open spec fn last_index_of_value(imms: Seq<ImmediateAddressing>, v: u8) -> int
    decreases imms.len(),
{
    if imms.len() == 0 {
        -1
    } else if imms.last().value == v {
        imms.len() - 1
    } else {
        last_index_of_value(imms.drop_last(), v)
    }
}

/// The state of the immediate pass after some lines: the values stored so
/// far with their addresses, and the rewritten lines.
pub struct ImmScan {
    pub imms: Seq<ImmediateAddressing>,
    pub kept: Seq<Seq<char>>,
}

/// The immediate pass after one more line, with `top` the highest address:
/// when the last word is `$v`, a value not seen before is stored at the next
/// address down from `top`, and the word is replaced by the value's address;
/// every line is rewritten with its words joined by single spaces.
pub open spec fn imm_step(st: ImmScan, line: Seq<char>, top: int) -> ImmScan {
    let ws = words(line);
    let last = ws.last();
    if is_immediate(last) {
        let v = immediate_value(last);
        let k = last_index_of_value(st.imms, v);
        let addr = if k >= 0 {
            st.imms[k].addr as int
        } else {
            top - st.imms.len()
        };
        let imms = if k >= 0 {
            st.imms
        } else {
            st.imms.push(ImmediateAddressing { value: v, addr: addr as usize })
        };
        ImmScan { imms, kept: st.kept.push(join(ws.drop_last().push(decimal(addr as nat)), ' ')) }
    } else {
        ImmScan { imms: st.imms, kept: st.kept.push(join(ws, ' ')) }
    }
}

/// The immediate pass over a sequence of lines.
pub open spec fn imm_scan(ls: Seq<Seq<char>>, top: int) -> ImmScan
    decreases ls.len(),
{
    if ls.len() == 0 {
        ImmScan { imms: seq![], kept: seq![] }
    } else {
        imm_step(imm_scan(ls.drop_last(), top), ls.last(), top)
    }
}

/// The immediate pass only adds values.
pub proof fn lemma_imm_scan_grows(ls: Seq<Seq<char>>, top: int, i: int)
    requires
        0 <= i <= ls.len(),
    ensures
        imm_scan(ls.take(i), top).imms.len() <= imm_scan(ls, top).imms.len(),
    decreases ls.len() - i,
{
    if i < ls.len() {
        lemma_imm_scan_grows(ls, top, i + 1);
        assert(ls.take(i + 1).drop_last() =~= ls.take(i));
    } else {
        assert(ls.take(i) =~= ls);
    }
}

/// The immediate pass lays out the values it stores without repetition,
/// one per address, downward from `top`: the `k`-th value stored is at
/// `top - k`, and no value is stored twice.
pub proof fn lemma_imm_scan_layout(ls: Seq<Seq<char>>, top: int)
    requires
        0 <= top <= usize::MAX,
        imm_scan(ls, top).imms.len() <= top + 1,
    ensures
        forall|k: int|
            0 <= k < imm_scan(ls, top).imms.len() ==> #[trigger] imm_scan(ls, top).imms[k].addr
                == top - k,
        forall|j: int, k: int|
            0 <= j < k < imm_scan(ls, top).imms.len() ==> #[trigger] imm_scan(ls, top).imms[j].value
                != #[trigger] imm_scan(ls, top).imms[k].value,
    decreases ls.len(),
{
    if ls.len() > 0 {
        let prev = imm_scan(ls.drop_last(), top);
        let cur = imm_scan(ls, top);
        assert(prev.imms.len() <= cur.imms.len());
        lemma_imm_scan_layout(ls.drop_last(), top);
        let ws = words(ls.last());
        if is_immediate(ws.last()) {
            let v = immediate_value(ws.last());
            if last_index_of_value(prev.imms, v) < 0 {
                lemma_last_index_of_value_found(prev.imms, v);
                assert(cur.imms == prev.imms.push(
                    ImmediateAddressing { value: v, addr: (top - prev.imms.len()) as usize },
                ));
                assert forall|j: int| 0 <= j < prev.imms.len() implies prev.imms[j].value != v by {
                    if prev.imms[j].value == v {
                        assert(imm_values(prev.imms)[j] == v);
                    }
                }
            }
        }
    }
}

/// Replacing the last of some words by a number leaves words.
proof fn lemma_replaced_words(ws: Seq<Seq<char>>, n: nat)
    requires
        ws.len() > 0,
        forall|i: int| 0 <= i < ws.len() ==> is_word(#[trigger] ws[i]),
    ensures
        forall|i: int|
            0 <= i < ws.drop_last().push(decimal(n)).len() ==> is_word(
                #[trigger] ws.drop_last().push(decimal(n))[i],
            ),
{
    lemma_decimal_is_word(n);
    let r = ws.drop_last().push(decimal(n));
    assert forall|i: int| 0 <= i < r.len() implies is_word(#[trigger] r[i]) by {
        if i < ws.len() - 1 {
            assert(r[i] == ws[i]);
        }
    }
}

/// The immediate pass rewrites each line into a line with as many words,
/// which reads back as written: the text it leaves has no blank line and
/// its lines are exactly the lines it wrote.
pub proof fn lemma_imm_pass_lines(ls: Seq<Seq<char>>, top: int)
    requires
        forall|i: int| 0 <= i < ls.len() ==> #[trigger] words(ls[i]).len() > 0,
    ensures
        imm_scan(ls, top).kept.len() == ls.len(),
        forall|i: int|
            0 <= i < ls.len() ==> word_line(#[trigger] imm_scan(ls, top).kept[i]) && words(
                imm_scan(ls, top).kept[i],
            ).len() == words(ls[i]).len(),
        lines(join(imm_scan(ls, top).kept, '\n')) == imm_scan(ls, top).kept,
        no_blank_lines(join(imm_scan(ls, top).kept, '\n')),
    decreases ls.len(),
{
    let k = imm_scan(ls, top).kept;
    if ls.len() > 0 {
        let init = ls.drop_last();
        assert forall|i: int| 0 <= i < init.len() implies #[trigger] words(init[i]).len() > 0 by {
            assert(init[i] == ls[i]);
        }
        lemma_imm_pass_lines(init, top);
        let prev = imm_scan(init, top);
        let line = ls.last();
        let ws = words(line);
        assert(words(ls[ls.len() - 1]).len() > 0);
        lemma_words_are_words(line);
        let last = ws.last();
        let new_line = if is_immediate(last) {
            let v = immediate_value(last);
            let j = last_index_of_value(prev.imms, v);
            let addr = if j >= 0 {
                prev.imms[j].addr as int
            } else {
                top - prev.imms.len()
            };
            lemma_replace_last_word(ws, addr as nat);
            lemma_replaced_words(ws, addr as nat);
            lemma_joined_words_line(ws.drop_last().push(decimal(addr as nat)));
            join(ws.drop_last().push(decimal(addr as nat)), ' ')
        } else {
            lemma_joined_words_line(ws);
            join(ws, ' ')
        };
        assert(k == prev.kept.push(new_line));
        assert(word_line(new_line) && words(new_line).len() == ws.len());
        assert forall|i: int| 0 <= i < ls.len() implies word_line(#[trigger] k[i]) && words(k[i]).len()
            == words(ls[i]).len() by {
            if i < init.len() {
                assert(k[i] == prev.kept[i]);
                assert(init[i] == ls[i]);
            }
        }
    }
    lemma_word_lines_read_back(k);
    assert forall|i: int| 0 <= i < lines(join(k, '\n')).len() implies #[trigger] words(
        lines(join(k, '\n'))[i],
    ).len() > 0 by {
        assert(word_line(k[i]));
    }
}

/// Whether every immediate operand of the text writes a byte.
pub open spec fn immediates_parse(text: Seq<char>) -> bool {
    forall|i: int|
        0 <= i < lines(text).len() ==> immediate_ok(#[trigger] words(lines(text)[i]).last())
}

/// Whether every immediate operand of the text writes a byte.
pub fn immediates_all_parse(text: &str) -> (b: bool)
    requires
        no_blank_lines(text@),
    ensures
        b == immediates_parse(text@),
{
    let ls = text_lines(text);
    let ghost all = views(ls@);
    let mut i: usize = 0;
    while i < ls.len()
        invariant
            i <= ls.len(),
            all == views(ls@),
            all == lines(text@),
            no_blank_lines(text@),
            forall|j: int| 0 <= j < i ==> immediate_ok(#[trigger] words(all[j]).last()),
        decreases ls.len() - i,
    {
        assert(all[i as int] == ls@[i as int]@);
        assert(words(lines(text@)[i as int]).len() > 0);
        let ws = split_words(&ls[i]);
        let n = ws.len();
        assert(views(ws@).last() == ws@[n - 1]@);
        let last = &ws[n - 1];
        if last.len() > 0 && last[0] == IMMEDIATE_ADDR_CHAR {
            let digits = chars_after_first(last);
            if parse_u8_chars(&digits).is_none() {
                return false;
            }
        }
        i += 1;
    }
    true
}

/// The values of the immediates, in order.
pub open spec fn imm_values(imms: Seq<ImmediateAddressing>) -> Seq<u8> {
    imms.map_values(|x: ImmediateAddressing| x.value)
}

proof fn lemma_last_index_of_value_found(imms: Seq<ImmediateAddressing>, v: u8)
    ensures
        last_index_of_value(imms, v) >= 0 <==> imm_values(imms).contains(v),
        last_index_of_value(imms, v) < imms.len(),
    decreases imms.len(),
{
    if imms.len() > 0 {
        let init = imms.drop_last();
        lemma_last_index_of_value_found(init, v);
        assert(imm_values(init) =~= imm_values(imms).drop_last());
        if imm_values(imms).contains(v) && imms.last().value != v {
            let k = choose|k: int| 0 <= k < imm_values(imms).len() && imm_values(imms)[k] == v;
            assert(k < imms.len() - 1);
            assert(imm_values(init)[k] == v);
        }
        if imms.last().value == v {
            assert(imm_values(imms)[imms.len() - 1] == v);
        }
    }
}

proof fn lemma_last_index_of_value_hit(imms: Seq<ImmediateAddressing>, v: u8)
    ensures
        last_index_of_value(imms, v) >= 0 ==> imms[last_index_of_value(imms, v)].value == v,
    decreases imms.len(),
{
    if imms.len() > 0 && imms.last().value != v {
        lemma_last_index_of_value_hit(imms.drop_last(), v);
        lemma_last_index_of_value_found(imms.drop_last(), v);
        let k = last_index_of_value(imms.drop_last(), v);
        if k >= 0 {
            assert(imms.drop_last()[k] == imms[k]);
        }
    }
}

/// Whether some line of `ls` ends with an immediate operand `$d` whose
/// digits `d` denote the byte `v`.
pub open spec fn some_operand_denotes(ls: Seq<Seq<char>>, v: u8) -> bool {
    exists|i: int|
        #![trigger ls[i]]
        0 <= i < ls.len() && is_immediate(words(ls[i]).last()) && parse_u8(
            words(ls[i]).last().drop_first(),
        ) == Some(v)
}

/// Whether the rewritten line `out` is the words of `line` with the last one
/// replaced by the address of a stored immediate whose value is the byte that
/// the operand's digits denote.
pub open spec fn operand_replaced_by_stored(
    line: Seq<char>,
    out: Seq<char>,
    imms: Seq<ImmediateAddressing>,
) -> bool {
    exists|k: int|
        #![trigger imms[k]]
        0 <= k < imms.len() && Some(imms[k].value) == parse_u8(words(line).last().drop_first())
            && words(out) == words(line).drop_last().push(decimal(imms[k].addr as nat))
}

/// The scan after one more line keeps the earlier rewritten lines and the
/// values stored before.
proof fn lemma_imm_step_keeps(ls: Seq<Seq<char>>, top: int)
    requires
        ls.len() > 0,
    ensures
        imm_scan(ls, top).kept == imm_scan(ls.drop_last(), top).kept.push(
            imm_scan(ls, top).kept.last(),
        ),
        imm_scan(ls.drop_last(), top).imms.len() <= imm_scan(ls, top).imms.len(),
        forall|k: int|
            0 <= k < imm_scan(ls.drop_last(), top).imms.len() ==> #[trigger] imm_scan(ls, top).imms[k]
                == imm_scan(ls.drop_last(), top).imms[k],
{
    let prev = imm_scan(ls.drop_last(), top);
    let cur = imm_scan(ls, top);
    assert(cur.kept =~= prev.kept.push(cur.kept.last()));
}

proof fn lemma_imm_operand_at(ls: Seq<Seq<char>>, top: int, i: int)
    requires
        forall|j: int| 0 <= j < ls.len() ==> #[trigger] words(ls[j]).len() > 0,
        0 <= top <= usize::MAX,
        imm_scan(ls, top).imms.len() <= top + 1,
        0 <= i < ls.len(),
        is_immediate(words(ls[i]).last()),
        parse_u8(words(ls[i]).last().drop_first()) is Some,
    ensures
        operand_replaced_by_stored(ls[i], imm_scan(ls, top).kept[i], imm_scan(ls, top).imms),
    decreases ls.len(),
{
    let init = ls.drop_last();
    let prev = imm_scan(init, top);
    let cur = imm_scan(ls, top);
    let n = ls.len() - 1;
    lemma_imm_step_keeps(ls, top);
    lemma_imm_pass_lines(ls, top);
    assert forall|j: int| 0 <= j < init.len() implies #[trigger] words(init[j]).len() > 0 by {
        assert(init[j] == ls[j]);
    }
    lemma_imm_pass_lines(init, top);
    if i < n {
        assert(init[i] == ls[i]);
        lemma_imm_operand_at(init, top, i);
        assert(cur.kept[i] == prev.kept[i]);
        let k = choose|k: int|
            #![trigger prev.imms[k]]
            0 <= k < prev.imms.len() && Some(prev.imms[k].value) == parse_u8(
                words(init[i]).last().drop_first(),
            ) && words(prev.kept[i]) == words(init[i]).drop_last().push(
                decimal(prev.imms[k].addr as nat),
            );
        assert(cur.imms[k] == prev.imms[k]);
    } else {
        let line = ls.last();
        let ws = words(line);
        assert(ls[n] == line);
        lemma_words_are_words(line);
        let v = immediate_value(ws.last());
        let j = last_index_of_value(prev.imms, v);
        lemma_last_index_of_value_hit(prev.imms, v);
        lemma_last_index_of_value_found(prev.imms, v);
        let addr = if j >= 0 {
            prev.imms[j].addr as int
        } else {
            top - prev.imms.len()
        };
        lemma_replace_last_word(ws, addr as nat);
        let kk = if j >= 0 { j } else { prev.imms.len() as int };
        assert(cur.imms[kk].value == v);
        assert(cur.imms[kk].addr as nat == addr as nat);
        assert(cur.kept[n] == join(ws.drop_last().push(decimal(addr as nat)), ' '));
        assert(Some(cur.imms[kk].value) == parse_u8(words(ls[i]).last().drop_first()));
    }
}

proof fn lemma_imm_plain_at(ls: Seq<Seq<char>>, top: int, i: int)
    requires
        forall|j: int| 0 <= j < ls.len() ==> #[trigger] words(ls[j]).len() > 0,
        0 <= i < ls.len(),
        !is_immediate(words(ls[i]).last()),
    ensures
        words(imm_scan(ls, top).kept[i]) == words(ls[i]),
    decreases ls.len(),
{
    let init = ls.drop_last();
    let n = ls.len() - 1;
    lemma_imm_step_keeps(ls, top);
    lemma_imm_pass_lines(ls, top);
    assert forall|j: int| 0 <= j < init.len() implies #[trigger] words(init[j]).len() > 0 by {
        assert(init[j] == ls[j]);
    }
    lemma_imm_pass_lines(init, top);
    if i < n {
        assert(init[i] == ls[i]);
        lemma_imm_plain_at(init, top, i);
    } else {
        let ws = words(ls.last());
        assert(ls[n] == ls.last());
        lemma_words_are_words(ls.last());
        lemma_words_join(ws);
    }
}

proof fn lemma_imm_value_from_operand(ls: Seq<Seq<char>>, top: int, k: int)
    requires
        forall|i: int| 0 <= i < ls.len() ==> immediate_ok(#[trigger] words(ls[i]).last()),
        0 <= k < imm_scan(ls, top).imms.len(),
    ensures
        some_operand_denotes(ls, imm_scan(ls, top).imms[k].value),
    decreases ls.len(),
{
    let init = ls.drop_last();
    let prev = imm_scan(init, top);
    let cur = imm_scan(ls, top);
    let n = ls.len() - 1;
    lemma_imm_step_keeps(ls, top);
    if k < prev.imms.len() {
        assert forall|i: int| 0 <= i < init.len() implies immediate_ok(#[trigger] words(init[i]).last()) by {
            assert(init[i] == ls[i]);
            assert(immediate_ok(words(ls[i]).last()));
        }
        lemma_imm_value_from_operand(init, top, k);
        let i = choose|i: int|
            #![trigger init[i]]
            0 <= i < init.len() && is_immediate(words(init[i]).last()) && parse_u8(
                words(init[i]).last().drop_first(),
            ) == Some(prev.imms[k].value);
        assert(init[i] == ls[i]);
    } else {
        assert(ls[n] == ls.last());
        assert(immediate_ok(words(ls[n]).last()));
        assert(parse_u8(words(ls[n]).last().drop_first()) == Some(cur.imms[k].value));
    }
}

/// What the immediate pass does to each line: a line whose last word is
/// `$d`, with `d` the decimal digits of a byte, is rewritten as its other
/// words followed by the address of a stored immediate whose value is that
/// byte; every other line keeps its words. When every operand is a byte,
/// each stored value is the byte of some operand.
pub proof fn lemma_immediate_operands(ls: Seq<Seq<char>>, top: int)
    requires
        forall|i: int| 0 <= i < ls.len() ==> #[trigger] words(ls[i]).len() > 0,
        0 <= top <= usize::MAX,
        imm_scan(ls, top).imms.len() <= top + 1,
    ensures
        imm_scan(ls, top).kept.len() == ls.len(),
        forall|i: int|
            0 <= i < ls.len() && is_immediate(words(ls[i]).last()) && (parse_u8(
                words(ls[i]).last().drop_first(),
            ) is Some) ==> operand_replaced_by_stored(
                ls[i],
                #[trigger] imm_scan(ls, top).kept[i],
                imm_scan(ls, top).imms,
            ),
        forall|i: int|
            0 <= i < ls.len() && !is_immediate(#[trigger] words(ls[i]).last()) ==> words(
                imm_scan(ls, top).kept[i],
            ) == words(ls[i]),
        (forall|i: int| 0 <= i < ls.len() ==> immediate_ok(#[trigger] words(ls[i]).last())) ==> forall|
            k: int,
        |
            0 <= k < imm_scan(ls, top).imms.len() ==> some_operand_denotes(
                ls,
                #[trigger] imm_scan(ls, top).imms[k].value,
            ),
{
    lemma_imm_pass_lines(ls, top);
    assert forall|i: int|
        0 <= i < ls.len() && is_immediate(words(ls[i]).last()) && (parse_u8(
            words(ls[i]).last().drop_first(),
        ) is Some) implies operand_replaced_by_stored(
        ls[i],
        #[trigger] imm_scan(ls, top).kept[i],
        imm_scan(ls, top).imms,
    ) by {
        lemma_imm_operand_at(ls, top, i);
    }
    assert forall|i: int|
        0 <= i < ls.len() && !is_immediate(#[trigger] words(ls[i]).last()) implies words(
        imm_scan(ls, top).kept[i],
    ) == words(ls[i]) by {
        lemma_imm_plain_at(ls, top, i);
    }
    if forall|i: int| 0 <= i < ls.len() ==> immediate_ok(#[trigger] words(ls[i]).last()) {
        assert forall|k: int| 0 <= k < imm_scan(ls, top).imms.len() implies some_operand_denotes(
            ls,
            #[trigger] imm_scan(ls, top).imms[k].value,
        ) by {
            lemma_imm_value_from_operand(ls, top, k);
        }
    }
}

/// The number of distinct immediate values in the text: the number of
/// addresses that the immediate pass takes.
pub(crate) fn distinct_immediates(text: &str, top: Ghost<int>) -> (n: usize)
    requires
        no_blank_lines(text@),
        immediates_parse(text@),
    ensures
        n == imm_scan(lines(text@), top@).imms.len(),
{
    let ls = text_lines(text);
    let ghost all = views(ls@);
    let mut seen: Vec<u8> = Vec::new();
    let mut i: usize = 0;
    assert(all.take(0) =~= seq![]);
    assert(seen@ =~= imm_values(seq![]));
    while i < ls.len()
        invariant
            i <= ls.len(),
            all == views(ls@),
            all == lines(text@),
            no_blank_lines(text@),
            immediates_parse(text@),
            seen@ == imm_values(imm_scan(all.take(i as int), top@).imms),
        decreases ls.len() - i,
    {
        let ghost sc = imm_scan(all.take(i as int), top@);
        assert(all.take(i + 1).drop_last() =~= all.take(i as int));
        assert(all[i as int] == ls@[i as int]@);
        assert(all.take(i + 1).last() == ls@[i as int]@);
        assert(words(lines(text@)[i as int]).len() > 0);
        assert(immediate_ok(words(lines(text@)[i as int]).last()));
        let ws = split_words(&ls[i]);
        let n = ws.len();
        assert(views(ws@).last() == ws@[n - 1]@);
        let last = &ws[n - 1];
        if last.len() > 0 && last[0] == IMMEDIATE_ADDR_CHAR {
            let digits = chars_after_first(last);
            let value = parse_u8_chars(&digits).unwrap();
            proof {
                lemma_last_index_of_value_found(sc.imms, value);
            }
            let mut found = false;
            let mut j: usize = 0;
            while j < seen.len()
                invariant
                    j <= seen.len(),
                    found == seen@.take(j as int).contains(value),
                decreases seen.len() - j,
            {
                let ghost t0 = seen@.take(j as int);
                let ghost t1 = seen@.take(j + 1);
                assert(t1 =~= t0.push(seen@[j as int]));
                proof {
                    if t0.contains(value) {
                        let k = choose|k: int| 0 <= k < t0.len() && t0[k] == value;
                        assert(t1[k] == value);
                    }
                    if t1.contains(value) && seen@[j as int] != value {
                        let k = choose|k: int| 0 <= k < t1.len() && t1[k] == value;
                        assert(k < j);
                        assert(t0[k] == value);
                    }
                    if seen@[j as int] == value {
                        assert(t1[j as int] == value);
                    }
                }
                if seen[j] == value {
                    found = true;
                }
                j += 1;
            }
            assert(seen@.take(j as int) =~= seen@);
            if !found {
                let ghost before = seen@;
                seen.push(value);
                assert(seen@ =~= imm_values(imm_scan(all.take(i + 1), top@).imms));
            }
        }
        i += 1;
    }
    assert(all.take(i as int) =~= all);
    seen.len()
}

fn chars_after_first(w: &Vec<char>) -> (out: Vec<char>)
    requires
        w.len() > 0,
    ensures
        out@ == w@.drop_first(),
{
    let mut out: Vec<char> = Vec::new();
    let mut k: usize = 1;
    while k < w.len()
        invariant
            1 <= k <= w.len(),
            out@ == w@.subrange(1, k as int),
        decreases w.len() - k,
    {
        out.push(w[k]);
        k += 1;
        assert(out@ =~= w@.subrange(1, k as int));
    }
    assert(out@ =~= w@.drop_first());
    out
}

fn find_value(addrs: &Vec<ImmediateAddressing>, value: u8) -> (r: (bool, usize))
    ensures
        r.0 == (last_index_of_value(addrs@, value) >= 0),
        r.0 ==> r.1 == addrs@[last_index_of_value(addrs@, value)].addr,
{
    let mut is_already_added = false;
    let mut true_addr: usize = 0;
    let mut j: usize = 0;
    assert(addrs@.take(0) =~= seq![]);
    while j < addrs.len()
        invariant
            j <= addrs.len(),
            is_already_added == (last_index_of_value(addrs@.take(j as int), value) >= 0),
            is_already_added ==> true_addr == addrs@[last_index_of_value(
                addrs@.take(j as int),
                value,
            )].addr,
            last_index_of_value(addrs@.take(j as int), value) < j,
        decreases addrs.len() - j,
    {
        assert(addrs@.take(j + 1).drop_last() =~= addrs@.take(j as int));
        assert(addrs@.take(j + 1).last() == addrs@[j as int]);
        if value == addrs[j].value {
            is_already_added = true;
            true_addr = addrs[j].addr;
        }
        j += 1;
    }
    assert(addrs@.take(j as int) =~= addrs@);
    (is_already_added, true_addr)
}

impl ImmediateAddressing {
    /// Stores each distinct immediate value once, from the top of memory
    /// downward, and replaces each immediate operand by its value's address.
    pub fn resolve_immediates(input: Metadata) -> (r: Result<Metadata, std::io::Error>)
        requires
            no_blank_lines(input.text@),
            immediates_parse(input.text@),
            imm_scan(lines(input.text@), input.mem_layout.mem_size - 1).imms.len()
                < input.mem_layout.mem_size,
        ensures
            r matches Ok(out) && {
                let sc = imm_scan(lines(input.text@), input.mem_layout.mem_size - 1);
                &&& out.text@ == join(sc.kept, '\n')
                &&& out.label_info.immediates@ == sc.imms
                &&& out.label_info.labels == input.label_info.labels
                &&& out.seg_info == input.seg_info
                &&& out.mem_layout == input.mem_layout
            },
    {
        let mut input = input;
        let mut dst: Vec<Vec<char>> = Vec::new();
        let ls = text_lines(input.text.as_str());
        let ghost all = views(ls@);
        let ghost top = input.mem_layout.mem_size - 1;
        proof {
            lemma_imm_scan_grows(all, top, 0);
            assert(all.take(0) =~= seq![]);
        }
        let last_mem_addr = input.mem_layout.mem_size - 1;
        let mut addrs: Vec<ImmediateAddressing> = Vec::new();
        let mut curr_addr = last_mem_addr;
        let mut i: usize = 0;
        assert(views(dst@) =~= seq![]);
        while i < ls.len()
            invariant
                i <= ls.len(),
                all == views(ls@),
                all == lines(input.text@),
                top == input.mem_layout.mem_size - 1,
                no_blank_lines(input.text@),
                immediates_parse(input.text@),
                imm_scan(all, top).imms.len() < input.mem_layout.mem_size,
                ({
                    let sc = imm_scan(all.take(i as int), top);
                    &&& views(dst@) == sc.kept
                    &&& addrs@ == sc.imms
                }),
                curr_addr == top - addrs.len(),
            decreases ls.len() - i,
        {
            assert(all.take(i + 1).drop_last() =~= all.take(i as int));
            let l = &ls[i];
            assert(all[i as int] == l@);
            assert(all.take(i + 1).last() == l@);
            assert(words(lines(input.text@)[i as int]).len() > 0);
            assert(immediate_ok(words(lines(input.text@)[i as int]).last()));
            proof {
                lemma_imm_scan_grows(all, top, i + 1);
            }
            let mut new_line_vec = split_words(l);
            let n = new_line_vec.len();
            let ghost ws = views(new_line_vec@);
            assert(ws.last() == new_line_vec@[n - 1]@);
            let last = &new_line_vec[n - 1];
            if last.len() > 0 && last[0] == IMMEDIATE_ADDR_CHAR {
                let digits = chars_after_first(last);
                let value = parse_u8_chars(&digits).unwrap();
                let (is_already_added, found_addr) = find_value(&addrs, value);
                let mut true_addr = found_addr;
                if !is_already_added {
                    addrs.push(ImmediateAddressing { value, addr: curr_addr });
                    true_addr = curr_addr;
                    curr_addr -= 1;
                }
                new_line_vec.pop();
                let ghost popped = views(new_line_vec@);
                assert(popped =~= ws.drop_last());
                new_line_vec.push(decimal_chars(true_addr));
                assert(views(new_line_vec@) =~= popped.push(decimal(true_addr as nat)));
            }
            let new_line = join_with(&new_line_vec, ' ');
            let ghost before = views(dst@);
            dst.push(new_line);
            assert(views(dst@) =~= before.push(new_line@));
            i += 1;
        }
        assert(all.take(i as int) =~= all);
        input.text = lines_text(&dst);
        input.label_info.immediates = addrs;
        Ok(input)
    }
}

} // verus!
