//! Labels and immediates collected from the program, and the pass that
//! replaces label operands by addresses.
use vstd::prelude::*;
use crate::metadata::labelinfo::immediatetrick::ImmediateAddressing;
use crate::metadata::labelinfo::label::{label_views, no_blank_lines, Label};
use crate::metadata::Metadata;
use crate::text_laws::{
    lemma_decimal_digits, lemma_decimal_is_word, lemma_joined_words_line, lemma_replace_last_word,
    lemma_word_lines_read_back, lemma_words_join, word_line,
};
use crate::text::{
    all_digits, is_word, lemma_words_are_words,
    chars_eq, chars_of, decimal, decimal_chars, join, join_with, lines, lines_text, split_words,
    text_lines, views, words,
};

pub mod immediatetrick;
pub mod label;

verus! {

/// The labels defined in a program and the immediates it uses.
#[derive(Debug)]
pub struct LabelInfo {
    pub labels: Vec<Label>,
    pub immediates: Vec<ImmediateAddressing>,
}

impl LabelInfo {
    /// No labels and no immediates.
    pub fn new() -> (l: LabelInfo)
        ensures
            l.labels@.len() == 0,
            l.immediates@.len() == 0,
    {
        LabelInfo { labels: Vec::new(), immediates: Vec::new() }
    }
}

impl Default for LabelInfo {
    fn default() -> (l: Self)
        ensures
            l.labels@.len() == 0,
            l.immediates@.len() == 0,
    {
        Self::new()
    }
}


/// The first position in `labels` of a label named `name`, or -1.
pub open spec fn first_label_index(labels: Seq<(Seq<char>, nat)>, name: Seq<char>) -> int
    decreases labels.len(),
{
    if labels.len() == 0 {
        -1
    } else if labels[0].0 == name {
        0
    } else {
        let k = first_label_index(labels.drop_first(), name);
        if k < 0 {
            -1
        } else {
            k + 1
        }
    }
}

proof fn lemma_first_label_index_skip(labels: Seq<(Seq<char>, nat)>, name: Seq<char>, k: int)
    requires
        0 <= k <= labels.len(),
        forall|j: int| 0 <= j < k ==> #[trigger] labels[j].0 != name,
    ensures
        first_label_index(labels, name) == (if first_label_index(labels.skip(k), name) < 0 {
            -1
        } else {
            first_label_index(labels.skip(k), name) + k
        }),
    decreases k,
{
    if k == 0 {
        assert(labels.skip(0) =~= labels);
    } else {
        let t = labels.drop_first();
        assert forall|j: int| 0 <= j < k - 1 implies #[trigger] t[j].0 != name by {
            assert(t[j] == labels[j + 1]);
        }
        lemma_first_label_index_skip(t, name, k - 1);
        assert(t.skip(k - 1) =~= labels.skip(k));
        assert(labels[0].0 != name);
    }
}

/// A line with its last word replaced by the address of the first label of
/// that name, if there is one; its words are joined by single spaces.
pub open spec fn label_applied(line: Seq<char>, labels: Seq<(Seq<char>, nat)>) -> Seq<char> {
    let ws = words(line);
    let k = first_label_index(labels, ws.last());
    if k >= 0 {
        join(ws.drop_last().push(decimal(labels[k].1)), ' ')
    } else {
        join(ws, ' ')
    }
}

/// Each line with its label operand replaced.
pub open spec fn labels_applied(ls: Seq<Seq<char>>, labels: Seq<(Seq<char>, nat)>) -> Seq<Seq<char>> {
    ls.map_values(|l: Seq<char>| label_applied(l, labels))
}

/// Replacing label operands keeps each line's number of words, and the
/// lines written read back as written.
pub proof fn lemma_labels_applied_lines(ls: Seq<Seq<char>>, labels: Seq<(Seq<char>, nat)>)
    requires
        forall|i: int| 0 <= i < ls.len() ==> #[trigger] words(ls[i]).len() > 0,
    ensures
        forall|i: int|
            0 <= i < ls.len() ==> word_line(#[trigger] labels_applied(ls, labels)[i]) && words(
                labels_applied(ls, labels)[i],
            ).len() == words(ls[i]).len(),
        lines(join(labels_applied(ls, labels), '\n')) == labels_applied(ls, labels),
{
    let k = labels_applied(ls, labels);
    assert forall|i: int| 0 <= i < ls.len() implies word_line(#[trigger] k[i]) && words(k[i]).len()
        == words(ls[i]).len() by {
        let line = ls[i];
        let ws = words(line);
        lemma_words_are_words(line);
        let j = first_label_index(labels, ws.last());
        if j >= 0 {
            lemma_replace_last_word(ws, labels[j].1);
            lemma_decimal_is_word(labels[j].1);
            let r = ws.drop_last().push(decimal(labels[j].1));
            assert forall|t: int| 0 <= t < r.len() implies is_word(#[trigger] r[t]) by {
                if t < ws.len() - 1 {
                    assert(r[t] == ws[t]);
                }
            }
            lemma_joined_words_line(r);
        } else {
            lemma_joined_words_line(ws);
        }
    }
    lemma_word_lines_read_back(k);
}

proof fn lemma_first_label_index_spec(labels: Seq<(Seq<char>, nat)>, name: Seq<char>)
    ensures
        first_label_index(labels, name) < labels.len(),
        first_label_index(labels, name) >= 0 ==> labels[first_label_index(labels, name)].0 == name
            && forall|j: int| 0 <= j < first_label_index(labels, name) ==> #[trigger] labels[j].0 != name,
        first_label_index(labels, name) < 0 ==> forall|j: int| 0 <= j < labels.len() ==> #[trigger] labels[j].0
            != name,
    decreases labels.len(),
{
    if labels.len() > 0 && labels[0].0 != name {
        let t = labels.drop_first();
        lemma_first_label_index_spec(t, name);
        let k = first_label_index(t, name);
        assert forall|j: int| 0 <= j < labels.len() && (k < 0 || j < k + 1) implies #[trigger] labels[j].0
            != name by {
            if j > 0 {
                assert(labels[j] == t[j - 1]);
            }
        }
        if k >= 0 {
            assert(labels[k + 1] == t[k]);
        }
    }
}

/// Replacing label operands, line by line: a line whose last word names a
/// label (the first label of that name counts), whatever its number of
/// words, reads back as its other words followed by the label's address in
/// decimal; any other line reads back as its own words.
pub proof fn lemma_label_operands_replaced(ls: Seq<Seq<char>>, labels: Seq<(Seq<char>, nat)>)
    requires
        forall|i: int| 0 <= i < ls.len() ==> #[trigger] words(ls[i]).len() > 0,
    ensures
        labels_applied(ls, labels).len() == ls.len(),
        forall|i: int, j: int|
            0 <= i < ls.len() && 0 <= j < labels.len() && labels[j].0 == words(ls[i]).last() && (forall|
                t: int,
            | 0 <= t < j ==> #[trigger] labels[t].0 != words(ls[i]).last()) ==> words(
                #[trigger] labels_applied(ls, labels)[i],
            ) == words(ls[i]).drop_last().push(#[trigger] decimal(labels[j].1)),
        forall|i: int|
            0 <= i < ls.len() && (forall|j: int| 0 <= j < labels.len() ==> #[trigger] labels[j].0 != words(
                ls[i],
            ).last()) ==> words(#[trigger] labels_applied(ls, labels)[i]) == words(ls[i]),
{
    assert forall|i: int, j: int|
        0 <= i < ls.len() && 0 <= j < labels.len() && labels[j].0 == words(ls[i]).last() && (forall|t: int|
            0 <= t < j ==> #[trigger] labels[t].0 != words(ls[i]).last()) implies words(
        #[trigger] labels_applied(ls, labels)[i],
    ) == words(ls[i]).drop_last().push(#[trigger] decimal(labels[j].1)) by {
        let ws = words(ls[i]);
        lemma_words_are_words(ls[i]);
        lemma_first_label_index_spec(labels, ws.last());
        let k = first_label_index(labels, ws.last());
        if k < 0 {
            assert(labels[j].0 != ws.last());
        }
        if k > j {
            assert(labels[j].0 != ws.last());
        }
        if k < j {
            assert(labels[k].0 != ws.last());
        }
        assert(k == j);
        lemma_replace_last_word(ws, labels[j].1);
    }
    assert forall|i: int|
        0 <= i < ls.len() && (forall|j: int| 0 <= j < labels.len() ==> #[trigger] labels[j].0 != words(
            ls[i],
        ).last()) implies words(#[trigger] labels_applied(ls, labels)[i]) == words(ls[i]) by {
        let ws = words(ls[i]);
        lemma_words_are_words(ls[i]);
        lemma_first_label_index_spec(labels, ws.last());
        let k = first_label_index(labels, ws.last());
        if k >= 0 {
            assert(labels[k].0 == ws.last());
        }
        lemma_words_join(ws);
    }
}

/// Whether no label is named by a number written in decimal digits.
pub open spec fn no_numeric_labels(labels: Seq<(Seq<char>, nat)>) -> bool {
    forall|j: int| 0 <= j < labels.len() ==> !(#[trigger] labels[j].0.len() > 0 && all_digits(labels[j].0))
}

proof fn lemma_no_label_found(labels: Seq<(Seq<char>, nat)>, name: Seq<char>)
    requires
        forall|j: int| 0 <= j < labels.len() ==> #[trigger] labels[j].0 != name,
    ensures
        first_label_index(labels, name) < 0,
{
    lemma_first_label_index_skip(labels, name, labels.len() as int);
    assert(labels.skip(labels.len() as int).len() == 0);
}

/// Replacing label operands a second time changes nothing, when no label is
/// named by a number: the text that a first pass writes has no blank line,
/// and its operands are addresses written in decimal, which name no label.
pub proof fn lemma_apply_labels_idempotent(text: Seq<char>, labels: Seq<(Seq<char>, nat)>)
    requires
        no_blank_lines(text),
        no_numeric_labels(labels),
    ensures
        no_blank_lines(join(labels_applied(lines(text), labels), '\n')),
        join(
            labels_applied(lines(join(labels_applied(lines(text), labels), '\n')), labels),
            '\n',
        ) == join(labels_applied(lines(text), labels), '\n'),
{
    let ls = lines(text);
    let k = labels_applied(ls, labels);
    assert forall|i: int| 0 <= i < ls.len() implies #[trigger] words(ls[i]).len() > 0 by {
        assert(words(lines(text)[i]).len() > 0);
    }
    lemma_labels_applied_lines(ls, labels);
    assert(lines(join(k, '\n')) == k);
    assert forall|i: int| 0 <= i < k.len() implies #[trigger] words(lines(join(k, '\n'))[i]).len() > 0 by {
        assert(word_line(k[i]));
    }
    assert forall|i: int| 0 <= i < k.len() implies #[trigger] label_applied(k[i], labels) == k[i] by {
        let ws = words(ls[i]);
        lemma_words_are_words(ls[i]);
        let j = first_label_index(labels, ws.last());
        let r = if j >= 0 {
            ws.drop_last().push(decimal(labels[j].1))
        } else {
            ws
        };
        assert(k[i] == join(r, ' '));
        if j >= 0 {
            lemma_replace_last_word(ws, labels[j].1);
            lemma_decimal_digits(labels[j].1);
            assert(r.last() == decimal(labels[j].1));
            assert forall|t: int| 0 <= t < labels.len() implies #[trigger] labels[t].0 != r.last() by {
                assert(!(labels[t].0.len() > 0 && all_digits(labels[t].0)));
            }
            lemma_no_label_found(labels, r.last());
        } else {
            lemma_words_join(ws);
        }
        assert(words(k[i]) == r);
    }
    assert(labels_applied(k, labels) =~= k);
}

fn find_label(labels: &Vec<Label>, name: &Vec<char>) -> (r: Option<usize>)
    ensures
        first_label_index(label_views(labels@), name@) >= 0 <==> r is Some,
        r matches Some(k) ==> k == first_label_index(label_views(labels@), name@) && k
            < labels.len(),
{
    let ghost lv = label_views(labels@);
    let mut k: usize = 0;
    while k < labels.len()
        invariant
            k <= labels.len(),
            lv == label_views(labels@),
            forall|j: int| 0 <= j < k ==> #[trigger] lv[j].0 != name@,
        decreases labels.len() - k,
    {
        let cs = chars_of(labels[k].name.as_str());
        assert(lv[k as int].0 == labels@[k as int].name@);
        if chars_eq(cs.as_slice(), name.as_slice()) {
            proof {
                lemma_first_label_index_skip(lv, name@, k as int);
                assert(lv.skip(k as int)[0] == lv[k as int]);
            }
            return Some(k);
        }
        k += 1;
    }
    proof {
        lemma_first_label_index_skip(lv, name@, k as int);
        assert(lv.skip(k as int).len() == 0);
    }
    None
}

impl LabelInfo {
    /// Replaces each label operand (the last word of a line that names a
    /// label) by the label's address.
    pub fn apply_labels(input: Metadata) -> (r: Result<Metadata, std::io::Error>)
        requires
            no_blank_lines(input.text@),
        ensures
            r matches Ok(out) && {
                &&& out.text@ == join(
                    labels_applied(lines(input.text@), label_views(input.label_info.labels@)),
                    '\n',
                )
                &&& out.label_info == input.label_info
                &&& out.seg_info == input.seg_info
                &&& out.mem_layout == input.mem_layout
            },
    {
        let mut input = input;
        let mut dst: Vec<Vec<char>> = Vec::new();
        let ls = text_lines(input.text.as_str());
        let ghost all = views(ls@);
        let mut i: usize = 0;
        assert(views(dst@) =~= seq![]);
        while i < ls.len()
            invariant
                i <= ls.len(),
                all == views(ls@),
                all == lines(input.text@),
                no_blank_lines(input.text@),
                views(dst@) == labels_applied(all, label_views(input.label_info.labels@)).take(i as int),
            decreases ls.len() - i,
        {
            let l = &ls[i];
            assert(all[i as int] == l@);
            assert(words(lines(input.text@)[i as int]).len() > 0);
            let mut new_line_vec = split_words(l);
            let n = new_line_vec.len();
            let ghost ws = views(new_line_vec@);
            assert(ws.last() == new_line_vec@[n - 1]@);
            let found = find_label(&input.label_info.labels, &new_line_vec[n - 1]);
            if let Some(k) = found {
                assert(label_views(input.label_info.labels@)[k as int].1
                    == input.label_info.labels@[k as int].addr);
                let true_addr = decimal_chars(input.label_info.labels[k].addr);
                new_line_vec.pop();
                let ghost popped = views(new_line_vec@);
                assert(popped =~= ws.drop_last());
                new_line_vec.push(true_addr);
                assert(views(new_line_vec@) =~= popped.push(true_addr@));
            }
            let new_line = join_with(&new_line_vec, ' ');
            let ghost before = views(dst@);
            dst.push(new_line);
            assert(views(dst@) =~= before.push(new_line@));
            i += 1;
            assert(views(dst@) =~= labels_applied(all, label_views(input.label_info.labels@)).take(
                i as int,
            ));
        }
        assert(labels_applied(all, label_views(input.label_info.labels@)).take(i as int)
            =~= labels_applied(all, label_views(input.label_info.labels@)));
        input.text = lines_text(&dst);
        Ok(input)
    }
}

} // verus!
