//! Label definitions (`name:`) and their addresses.
use vstd::prelude::*;
use crate::metadata::segment::SegInfo;
use crate::metadata::Metadata;
use crate::text_laws::{
    lemma_join_words_shape, lemma_joined_words_line, lemma_word_lines_read_back, lemma_words_join, word_line,
};
use crate::text::{
    lemma_total_len_last, is_word, chars_of, join, join_with, lemma_total_len_skip, lemma_words_are_words, lemma_words_len, lines,
    lines_text, prefix_chars, split_words, string_of, text_lines, total_len, views, words,
};

verus! {

/// The character that ends a label definition.
pub const LABEL_CHAR: char = ':';

/// A label and the address it stands for.
#[derive(Debug)]
pub struct Label {
    pub name: String,
    pub addr: usize,
}

/// Whether the first word of the line defines a label: it ends with `:`.
pub open spec fn is_label_def(line: Seq<char>) -> bool {
    let ws = words(line);
    ws.len() > 0 && ws[0].last() == LABEL_CHAR
}

/// The name that a label definition defines: its first word without the `:`.
pub open spec fn label_name(line: Seq<char>) -> Seq<char> {
    words(line)[0].drop_last()
}

impl Label {
    /// The label that the line defines, at the given address, if its first
    /// word ends with `:`.
    pub fn from_str_counter(line: &str, counter: usize) -> (r: Option<Label>)
        ensures
            r is Some <==> is_label_def(line@),
            r matches Some(l) ==> l.name@ == label_name(line@) && l.addr == counter,
    {
        let v = chars_of(line);
        let ws = split_words(&v);
        if ws.len() == 0 {
            return None;
        }
        proof {
            lemma_words_are_words(v@);
        }
        let w = &ws[0];
        assert(views(ws@)[0] == w@);
        let n = w.len();
        if w[n - 1] == LABEL_CHAR {
            let name = prefix_chars(w, n - 1);
            assert(name@ =~= w@.drop_last());
            Some(Label { name: string_of(&name), addr: counter })
        } else {
            None
        }
    }
}


/// The labels as names and addresses.
pub open spec fn label_views(v: Seq<Label>) -> Seq<(Seq<char>, nat)> {
    v.map_values(|l: Label| (l.name@, l.addr as nat))
}

/// The address of a label defined at word position `counter`: counted from
/// the start of memory in the code segment, from `data_start` in the data
/// segment, and left as it is outside both.
pub open spec fn label_addr(counter: nat, seg: SegInfo, data_start: nat) -> nat {
    if seg.code.addr <= counter < seg.code.addr + seg.code.len {
        (counter - seg.code.addr) as nat
    } else if seg.data.addr <= counter < seg.data.addr + seg.data.len {
        (counter - seg.data.addr + data_start) as nat
    } else {
        counter
    }
}

/// The state of the label pass after some lines: the labels defined, the
/// word position, and the lines kept.
pub struct LabelScan {
    pub labels: Seq<(Seq<char>, nat)>,
    pub counter: nat,
    pub kept: Seq<Seq<char>>,
}

/// The words of a line that remain once a label definition is taken out.
pub open spec fn written_words(line: Seq<char>) -> Seq<Seq<char>> {
    if is_label_def(line) {
        words(line).drop_first()
    } else {
        words(line)
    }
}

/// The label pass after one more line: a label definition is recorded at
/// the current word position and taken out of the line; the remaining words
/// advance the position and are kept, joined by spaces, unless none remain.
pub open spec fn label_step(st: LabelScan, line: Seq<char>, seg: SegInfo, data_start: nat) -> LabelScan {
    let written = written_words(line);
    let joined = join(written, ' ');
    LabelScan {
        labels: if is_label_def(line) {
            st.labels.push((label_name(line), label_addr(st.counter, seg, data_start)))
        } else {
            st.labels
        },
        counter: st.counter + written.len(),
        kept: if joined.len() > 0 {
            st.kept.push(joined)
        } else {
            st.kept
        },
    }
}

/// The label pass over a sequence of lines.
pub open spec fn label_scan(ls: Seq<Seq<char>>, seg: SegInfo, data_start: nat) -> LabelScan
    decreases ls.len(),
{
    if ls.len() == 0 {
        LabelScan { labels: seq![], counter: 0, kept: seq![] }
    } else {
        label_step(label_scan(ls.drop_last(), seg, data_start), ls.last(), seg, data_start)
    }
}

/// Whether every label address fits in a machine word.
pub open spec fn label_addrs_fit(sc: LabelScan) -> bool {
    forall|k: int| 0 <= k < sc.labels.len() ==> #[trigger] sc.labels[k].1 <= usize::MAX
}

/// The labels found in a prefix of the lines are the first labels found in
/// all of them.
pub proof fn lemma_label_scan_prefix(ls: Seq<Seq<char>>, seg: SegInfo, data_start: nat, i: int)
    requires
        0 <= i <= ls.len(),
    ensures
        label_scan(ls.take(i), seg, data_start).labels.len() <= label_scan(ls, seg, data_start).labels.len(),
        forall|k: int|
            0 <= k < label_scan(ls.take(i), seg, data_start).labels.len() ==> #[trigger] label_scan(
                ls.take(i),
                seg,
                data_start,
            ).labels[k] == label_scan(ls, seg, data_start).labels[k],
    decreases ls.len() - i,
{
    if i < ls.len() {
        lemma_label_scan_prefix(ls, seg, data_start, i + 1);
        assert(ls.take(i + 1).drop_last() =~= ls.take(i));
        let a = label_scan(ls.take(i), seg, data_start).labels;
        let b = label_scan(ls.take(i + 1), seg, data_start).labels;
        assert forall|k: int| 0 <= k < a.len() implies #[trigger] a[k] == b[k] by {
        }
    } else {
        assert(ls.take(i) =~= ls);
    }
}

/// The label pass counts at most as many words as the lines hold
/// characters, and each label's address is at most that count or lies
/// inside the data segment's place in memory.
pub proof fn lemma_label_scan_bounds(ls: Seq<Seq<char>>, seg: SegInfo, data_start: nat)
    ensures
        label_scan(ls, seg, data_start).counter <= total_len(ls),
        forall|k: int|
            0 <= k < label_scan(ls, seg, data_start).labels.len() ==> #[trigger] label_scan(
                ls,
                seg,
                data_start,
            ).labels[k].1 <= label_scan(ls, seg, data_start).counter || label_scan(
                ls,
                seg,
                data_start,
            ).labels[k].1 < seg.data.len + data_start,
    decreases ls.len(),
{
    if ls.len() > 0 {
        let init = ls.drop_last();
        lemma_label_scan_bounds(init, seg, data_start);
        lemma_total_len_last(ls);
        lemma_words_len(ls.last());
        let prev = label_scan(init, seg, data_start);
        let cur = label_scan(ls, seg, data_start);
        assert forall|k: int| 0 <= k < cur.labels.len() implies #[trigger] cur.labels[k].1 <= cur.counter
            || cur.labels[k].1 < seg.data.len + data_start by {
            if k < prev.labels.len() {
                assert(cur.labels[k] == prev.labels[k]);
            }
        }
    }
}

/// The number of words in a sequence of lines.
pub open spec fn word_total(ks: Seq<Seq<char>>) -> nat
    decreases ks.len(),
{
    if ks.len() == 0 {
        0
    } else {
        word_total(ks.drop_last()) + words(ks.last()).len()
    }
}

/// The label pass's word position is the number of words in the lines it
/// has written so far.
pub proof fn lemma_label_counter_words(ls: Seq<Seq<char>>, seg: SegInfo, data_start: nat)
    ensures
        label_scan(ls, seg, data_start).counter == word_total(label_scan(ls, seg, data_start).kept),
    decreases ls.len(),
{
    if ls.len() > 0 {
        let prev = label_scan(ls.drop_last(), seg, data_start);
        let cur = label_scan(ls, seg, data_start);
        lemma_label_counter_words(ls.drop_last(), seg, data_start);
        let line = ls.last();
        let written = written_words(line);
        let joined = join(written, ' ');
        lemma_words_are_words(line);
        assert forall|i: int| 0 <= i < written.len() implies is_word(#[trigger] written[i]) by {
            if is_label_def(line) {
                assert(written[i] == words(line)[i + 1]);
            }
        }
        lemma_join_words_shape(written);
        if joined.len() > 0 {
            lemma_words_join(written);
            assert(cur.kept.drop_last() == prev.kept);
        }
    }
}

/// The labels of the lines before line `i` come first, and a label defined
/// on line `i` comes right after them with the address of its word position.
proof fn lemma_label_at_line(ls: Seq<Seq<char>>, seg: SegInfo, data_start: nat, i: int)
    requires
        0 <= i < ls.len(),
        is_label_def(ls[i]),
    ensures
        label_scan(ls.take(i), seg, data_start).labels.len() < label_scan(ls, seg, data_start).labels.len(),
        label_scan(ls, seg, data_start).labels[label_scan(ls.take(i), seg, data_start).labels.len() as int]
            == (label_name(ls[i]), label_addr(label_scan(ls.take(i), seg, data_start).counter, seg, data_start)),
{
    lemma_label_scan_prefix(ls, seg, data_start, i + 1);
    assert(ls.take(i + 1).drop_last() =~= ls.take(i));
    assert(ls.take(i + 1).last() == ls[i]);
    let a = label_scan(ls.take(i), seg, data_start);
    let b = label_scan(ls.take(i + 1), seg, data_start);
    assert(b.labels == a.labels.push((label_name(ls[i]), label_addr(a.counter, seg, data_start))));
    assert(b.labels[a.labels.len() as int] == b.labels.last());
}

/// Where the label pass puts a label: a label defined at word position `p`
/// (the number of words in the lines written before its line) has address
/// `p` less the code segment's start when `p` lies in the code segment (so
/// the first code word is address 0), `p` less the data segment's start plus
/// `data_start` when `p` lies in the data segment, and `p` otherwise; this
/// holds whatever the order of the segments in the source. The labels come
/// in the order of their lines.
pub proof fn lemma_label_addresses(ls: Seq<Seq<char>>, seg: SegInfo, data_start: nat)
    ensures
        forall|i: int|
            0 <= i < ls.len() && is_label_def(#[trigger] ls[i]) ==> ({
                let before = label_scan(ls.take(i), seg, data_start);
                let p = word_total(before.kept);
                let addr = if seg.code.addr <= p && p < seg.code.addr + seg.code.len {
                    p - seg.code.addr
                } else if seg.data.addr <= p && p < seg.data.addr + seg.data.len {
                    p - seg.data.addr + data_start
                } else {
                    p as int
                };
                &&& before.labels.len() < label_scan(ls, seg, data_start).labels.len()
                &&& label_scan(ls, seg, data_start).labels[before.labels.len() as int].0 == label_name(ls[i])
                &&& label_scan(ls, seg, data_start).labels[before.labels.len() as int].1 == addr
            }),
{
    assert forall|i: int| 0 <= i < ls.len() && is_label_def(#[trigger] ls[i]) implies ({
        let before = label_scan(ls.take(i), seg, data_start);
        let p = word_total(before.kept);
        let addr = if seg.code.addr <= p && p < seg.code.addr + seg.code.len {
            p - seg.code.addr
        } else if seg.data.addr <= p && p < seg.data.addr + seg.data.len {
            p - seg.data.addr + data_start
        } else {
            p as int
        };
        &&& before.labels.len() < label_scan(ls, seg, data_start).labels.len()
        &&& label_scan(ls, seg, data_start).labels[before.labels.len() as int].0 == label_name(ls[i])
        &&& label_scan(ls, seg, data_start).labels[before.labels.len() as int].1 == addr
    }) by {
        lemma_label_at_line(ls, seg, data_start, i);
        lemma_label_counter_words(ls.take(i), seg, data_start);
    }
}

/// Whether every line of the text has a word.
pub open spec fn no_blank_lines(text: Seq<char>) -> bool {
    forall|i: int| 0 <= i < lines(text).len() ==> #[trigger] words(lines(text)[i]).len() > 0
}

/// Whether every line of the text has a word.
pub fn has_no_blank_lines(text: &str) -> (b: bool)
    ensures
        b == no_blank_lines(text@),
{
    let ls = text_lines(text);
    let ghost all = views(ls@);
    let mut i: usize = 0;
    while i < ls.len()
        invariant
            i <= ls.len(),
            all == views(ls@),
            all == lines(text@),
            forall|j: int| 0 <= j < i ==> #[trigger] words(all[j]).len() > 0,
        decreases ls.len() - i,
    {
        let ws = split_words(&ls[i]);
        assert(all[i as int] == ls@[i as int]@);
        assert(views(ws@).len() == ws@.len());
        if ws.len() == 0 {
            return false;
        }
        i += 1;
    }
    true
}

/// The label pass writes lines that each have words and read back as
/// written: the text it leaves has no blank line, and its lines are exactly
/// the lines it kept.
pub proof fn lemma_label_pass_lines(ls: Seq<Seq<char>>, seg: SegInfo, data_start: nat)
    ensures
        forall|i: int|
            0 <= i < label_scan(ls, seg, data_start).kept.len() ==> word_line(
                #[trigger] label_scan(ls, seg, data_start).kept[i],
            ),
        lines(join(label_scan(ls, seg, data_start).kept, '\n')) == label_scan(ls, seg, data_start).kept,
        no_blank_lines(join(label_scan(ls, seg, data_start).kept, '\n')),
    decreases ls.len(),
{
    let k = label_scan(ls, seg, data_start).kept;
    if ls.len() > 0 {
        lemma_label_pass_lines(ls.drop_last(), seg, data_start);
        let prev = label_scan(ls.drop_last(), seg, data_start).kept;
        let line = ls.last();
        let written = written_words(line);
        let joined = join(written, ' ');
        if joined.len() > 0 {
            lemma_words_are_words(line);
            assert forall|i: int| 0 <= i < written.len() implies is_word(#[trigger] written[i]) by {
                if is_label_def(line) {
                    assert(written[i] == words(line)[i + 1]);
                }
            }
            assert(written.len() > 0);
            lemma_joined_words_line(written);
            assert(k == prev.push(joined));
            assert forall|i: int| 0 <= i < k.len() implies word_line(#[trigger] k[i]) by {
                if i < prev.len() {
                    assert(k[i] == prev[i]);
                }
            }
        }
    }
    lemma_word_lines_read_back(k);
    assert forall|i: int| 0 <= i < lines(join(k, '\n')).len() implies #[trigger] words(
        lines(join(k, '\n'))[i],
    ).len() > 0 by {
        assert(word_line(k[i]));
    }
}

impl Label {
    /// Collects the label definitions: each is given the address of the
    /// word that follows it (relative to its segment's start in memory) and
    /// is taken out of the text.
    pub fn resolve_label_defs(input: Metadata) -> (r: Result<Metadata, std::io::Error>)
        requires
            no_blank_lines(input.text@),
            label_addrs_fit(
                label_scan(lines(input.text@), input.seg_info, input.mem_layout.mem_size as nat / 2),
            ),
        ensures
            r matches Ok(out) && {
                let sc = label_scan(
                    lines(input.text@),
                    input.seg_info,
                    input.mem_layout.mem_size as nat / 2,
                );
                &&& out.text@ == join(sc.kept, '\n')
                &&& label_views(out.label_info.labels@) == sc.labels
                &&& out.label_info.immediates == input.label_info.immediates
                &&& out.seg_info == input.seg_info
                &&& out.mem_layout == input.mem_layout
            },
    {
        let mut input = input;
        let mut dst: Vec<Vec<char>> = Vec::new();
        let mut labels: Vec<Label> = Vec::new();
        let mut line_counter: usize = 0;
        let ls = text_lines(input.text.as_str());
        let ghost all = views(ls@);
        let ghost seg = input.seg_info;
        let ghost ds = input.mem_layout.mem_size as nat / 2;
        let mut i: usize = 0;
        assert(all.take(0) =~= seq![]);
        assert(all.skip(0) =~= all);
        assert(views(dst@) =~= seq![]);
        assert(label_views(labels@) =~= seq![]);
        while i < ls.len()
            invariant
                i <= ls.len(),
                all == views(ls@),
                all == lines(input.text@),
                no_blank_lines(input.text@),
                seg == input.seg_info,
                ds == input.mem_layout.mem_size as nat / 2,
                label_addrs_fit(label_scan(all, seg, ds)),
                total_len(all) <= usize::MAX,
                ({
                    let sc = label_scan(all.take(i as int), seg, ds);
                    &&& line_counter == sc.counter
                    &&& views(dst@) == sc.kept
                    &&& label_views(labels@) == sc.labels
                }),
                line_counter + total_len(all.skip(i as int)) <= total_len(all),
            decreases ls.len() - i,
        {
            assert(all.take(i + 1).drop_last() =~= all.take(i as int));
            let l = &ls[i];
            assert(all[i as int] == l@);
            assert(all.take(i + 1).last() == l@);
            assert(words(lines(input.text@)[i as int]).len() > 0);
            proof {
                lemma_total_len_skip(all, i as int);
                lemma_words_len(l@);
            }
            let mut to_write = split_words(l);
            let line = string_of(l);
            let maybe_label = Label::from_str_counter(line.as_str(), line_counter);
            match maybe_label {
                Some(mut label) => {
                    proof {
                        lemma_label_scan_prefix(all, seg, ds, i + 1);
                        assert(label_scan(all.take(i + 1), seg, ds).labels.last().1 == label_addr(
                            line_counter as nat,
                            seg,
                            ds,
                        ));
                    }
                    if line_counter >= input.seg_info.code.addr && line_counter
                        - input.seg_info.code.addr < input.seg_info.code.len {
                        label.addr -= input.seg_info.code.addr;
                        label.addr += input.mem_layout.code_seg();
                    } else if line_counter >= input.seg_info.data.addr && line_counter
                        - input.seg_info.data.addr < input.seg_info.data.len {
                        label.addr -= input.seg_info.data.addr;
                        label.addr += input.mem_layout.data_seg();
                    }
                    assert(label.addr == label_addr(line_counter as nat, seg, ds));
                    let ghost before_words = views(to_write@);
                    to_write.remove(0);
                    assert(views(to_write@) =~= before_words.drop_first());
                    let ghost before = label_views(labels@);
                    labels.push(label);
                    assert(label_views(labels@) =~= before.push(
                        (label_name(l@), label_addr(line_counter as nat, seg, ds)),
                    ));
                },
                None => {},
            }
            assert(views(to_write@) == written_words(l@));
            line_counter += to_write.len();
            let joined = join_with(&to_write, ' ');
            if joined.len() > 0 {
                let ghost before = views(dst@);
                dst.push(joined);
                assert(views(dst@) =~= before.push(joined@));
            }
            i += 1;
        }
        assert(all.take(i as int) =~= all);
        input.text = lines_text(&dst);
        input.label_info.labels = labels;
        Ok(input)
    }
}

} // verus!
