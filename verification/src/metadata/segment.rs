//! The `.code` and `.data` directives: where each segment starts in the
//! program and how many words it holds.
use vstd::prelude::*;
use crate::metadata::labelinfo::label::{
    is_label_def, label_scan, lemma_label_counter_words, word_total, written_words, Label,
};
use crate::metadata::Metadata;
use crate::text::{
    chars_eq, join, lemma_total_len_skip, lemma_words_len, lines, lines_text, split_words,
    prefix_chars, string_of, text_lines, total_len, views, words,
};

verus! {

/// A segment: the word position where it starts and its number of words.
#[derive(Debug, PartialEq, Eq, Structural)]
pub struct Segment {
    pub addr: usize,
    pub len: usize,
}

impl Segment {
    fn new() -> (s: Segment)
        ensures
            s == (Segment { addr: 0, len: 0 }),
    {
        Segment { addr: 0, len: 0 }
    }
}

/// The code segment and the data segment of a program.
#[derive(Debug, PartialEq, Eq, Structural)]
pub struct SegInfo {
    pub code: Segment,
    pub data: Segment,
}

impl SegInfo {
    /// Two empty segments at position zero.
    pub open spec fn empty() -> SegInfo {
        SegInfo { code: Segment { addr: 0, len: 0 }, data: Segment { addr: 0, len: 0 } }
    }

    /// Two empty segments at position zero.
    pub fn new() -> (s: SegInfo)
        ensures
            s == SegInfo::empty(),
    {
        SegInfo { code: Segment::new(), data: Segment::new() }
    }
}

impl Default for SegInfo {
    fn default() -> (s: Self)
        ensures
            s == SegInfo::empty(),
    {
        Self::new()
    }
}


/// The state of the segment pass after some lines: where each segment
/// started, how many words each holds, the word position, which segment the
/// pass is in, and the lines kept.
pub struct SegScan {
    pub code_addr: nat,
    pub code_len: nat,
    pub data_addr: nat,
    pub data_len: nat,
    pub counter: nat,
    pub on_code: bool,
    pub on_data: bool,
    pub kept: Seq<Seq<char>>,
}

/// The number of words that a line occupies in memory: its words, less a
/// label definition.
pub open spec fn line_size(line: Seq<char>) -> nat {
    if is_label_def(line) {
        (words(line).len() - 1) as nat
    } else {
        words(line).len()
    }
}

/// The `.code` directive.
pub open spec fn code_directive() -> Seq<char> {
    seq!['.', 'c', 'o', 'd', 'e']
}

/// The `.data` directive.
pub open spec fn data_directive() -> Seq<char> {
    seq!['.', 'd', 'a', 't', 'a']
}

/// The segment pass after one more line: a directive opens its segment at
/// the current word position and is dropped; a line inside a segment counts
/// toward it and is kept; a line before any directive is dropped.
pub open spec fn seg_step(st: SegScan, line: Seq<char>) -> SegScan {
    if line == code_directive() {
        SegScan { code_addr: st.counter, on_code: true, on_data: false, ..st }
    } else if line == data_directive() {
        SegScan { data_addr: st.counter, on_code: false, on_data: true, ..st }
    } else {
        let num = line_size(line);
        let inside = st.on_code || st.on_data;
        SegScan {
            code_len: if st.on_code {
                st.code_len + num
            } else {
                st.code_len
            },
            data_len: if !st.on_code && st.on_data {
                st.data_len + num
            } else {
                st.data_len
            },
            counter: if inside {
                st.counter + num
            } else {
                st.counter
            },
            kept: if inside {
                st.kept.push(line)
            } else {
                st.kept
            },
            ..st
        }
    }
}

/// The segment pass over a sequence of lines.
pub open spec fn seg_scan(ls: Seq<Seq<char>>) -> SegScan
    decreases ls.len(),
{
    if ls.len() == 0 {
        SegScan {
            code_addr: 0,
            code_len: 0,
            data_addr: 0,
            data_len: 0,
            counter: 0,
            on_code: false,
            on_data: false,
            kept: seq![],
        }
    } else {
        seg_step(seg_scan(ls.drop_last()), ls.last())
    }
}

/// Every word counted by the segment pass belongs to one of the two
/// segments, each segment starts at or before the current position, and no
/// kept line is a directive.
pub proof fn lemma_seg_scan_accounts(ls: Seq<Seq<char>>)
    ensures
        seg_scan(ls).code_len + seg_scan(ls).data_len == seg_scan(ls).counter,
        seg_scan(ls).code_addr <= seg_scan(ls).counter,
        seg_scan(ls).data_addr <= seg_scan(ls).counter,
        !(seg_scan(ls).on_code && seg_scan(ls).on_data),
        forall|i: int|
            0 <= i < seg_scan(ls).kept.len() ==> #[trigger] seg_scan(ls).kept[i] != code_directive()
                && seg_scan(ls).kept[i] != data_directive(),
    decreases ls.len(),
{
    if ls.len() > 0 {
        lemma_seg_scan_accounts(ls.drop_last());
    }
}

/// How one line moves the segment pass: a line that is not a directive
/// adds to the segment it lies in, and to the word position, exactly the
/// words that the label pass will leave of it (all its words but a label
/// definition, so a line holding only a label adds none); a line outside
/// both segments adds nothing.
pub proof fn lemma_seg_step_counts(st: SegScan, line: Seq<char>)
    requires
        line != code_directive(),
        line != data_directive(),
    ensures
        seg_step(st, line).code_len == st.code_len + if st.on_code {
            written_words(line).len()
        } else {
            0
        },
        seg_step(st, line).data_len == st.data_len + if !st.on_code && st.on_data {
            written_words(line).len()
        } else {
            0
        },
        seg_step(st, line).counter == st.counter + if st.on_code || st.on_data {
            written_words(line).len()
        } else {
            0
        },
{
}

/// The segments hold, together, exactly the words that the label pass
/// leaves of the lines the segment pass keeps: label definitions take no
/// place.
pub proof fn lemma_segments_count_written_words(ls: Seq<Seq<char>>, seg: SegInfo, data_start: nat)
    ensures
        seg_scan(ls).code_len + seg_scan(ls).data_len == seg_scan(ls).counter,
        seg_scan(ls).counter == label_scan(seg_scan(ls).kept, seg, data_start).counter,
        seg_scan(ls).counter == word_total(label_scan(seg_scan(ls).kept, seg, data_start).kept),
    decreases ls.len(),
{
    lemma_seg_scan_accounts(ls);
    lemma_label_counter_words(seg_scan(ls).kept, seg, data_start);
    if ls.len() > 0 {
        lemma_segments_count_written_words(ls.drop_last(), seg, data_start);
        let prev = seg_scan(ls.drop_last());
        let cur = seg_scan(ls);
        let line = ls.last();
        if line != code_directive() && line != data_directive() && (prev.on_code || prev.on_data) {
            lemma_seg_step_counts(prev, line);
            assert(cur.kept == prev.kept.push(line));
            assert(cur.kept.drop_last() =~= prev.kept);
        }
    }
}

proof fn lemma_seg_starts_from(ls: Seq<Seq<char>>, i: int)
    requires
        0 <= i < ls.len(),
    ensures
        ls[i] == code_directive() && (forall|j: int| i < j < ls.len() ==> #[trigger] ls[j] != code_directive())
            ==> seg_scan(ls).code_addr == seg_scan(ls.take(i)).counter,
        ls[i] == data_directive() && (forall|j: int| i < j < ls.len() ==> #[trigger] ls[j] != data_directive())
            ==> seg_scan(ls).data_addr == seg_scan(ls.take(i)).counter,
    decreases ls.len(),
{
    if i == ls.len() - 1 {
        assert(ls.drop_last() =~= ls.take(i));
    } else {
        let init = ls.drop_last();
        assert(init[i] == ls[i]);
        assert(init.take(i) =~= ls.take(i));
        if ls[i] == code_directive() && (forall|j: int| i < j < ls.len() ==> #[trigger] ls[j] != code_directive()) {
            assert forall|j: int| i < j < init.len() implies #[trigger] init[j] != code_directive() by {
                assert(init[j] == ls[j]);
            }
            assert(ls[ls.len() - 1] != code_directive());
        }
        if ls[i] == data_directive() && (forall|j: int| i < j < ls.len() ==> #[trigger] ls[j] != data_directive()) {
            assert forall|j: int| i < j < init.len() implies #[trigger] init[j] != data_directive() by {
                assert(init[j] == ls[j]);
            }
            assert(ls[ls.len() - 1] != data_directive());
        }
        lemma_seg_starts_from(init, i);
    }
}

proof fn lemma_seg_absent(ls: Seq<Seq<char>>)
    ensures
        (forall|j: int| 0 <= j < ls.len() ==> #[trigger] ls[j] != code_directive()) ==> !seg_scan(ls).on_code
            && seg_scan(ls).code_addr == 0 && seg_scan(ls).code_len == 0,
        (forall|j: int| 0 <= j < ls.len() ==> #[trigger] ls[j] != data_directive()) ==> !seg_scan(ls).on_data
            && seg_scan(ls).data_addr == 0 && seg_scan(ls).data_len == 0,
    decreases ls.len(),
{
    if ls.len() > 0 {
        let init = ls.drop_last();
        if forall|j: int| 0 <= j < ls.len() ==> #[trigger] ls[j] != code_directive() {
            assert forall|j: int| 0 <= j < init.len() implies #[trigger] init[j] != code_directive() by {
                assert(init[j] == ls[j]);
            }
            assert(ls[ls.len() - 1] != code_directive());
        }
        if forall|j: int| 0 <= j < ls.len() ==> #[trigger] ls[j] != data_directive() {
            assert forall|j: int| 0 <= j < init.len() implies #[trigger] init[j] != data_directive() by {
                assert(init[j] == ls[j]);
            }
            assert(ls[ls.len() - 1] != data_directive());
        }
        lemma_seg_absent(init);
    }
}

/// Where the segments start: a segment starts at the number of words that
/// the label pass leaves of the lines kept before its last directive; a
/// segment without a directive starts at 0 and is empty.
pub proof fn lemma_segment_starts(ls: Seq<Seq<char>>, seg: SegInfo, data_start: nat)
    ensures
        forall|i: int|
            0 <= i < ls.len() && #[trigger] ls[i] == code_directive() && (forall|j: int|
                i < j < ls.len() ==> #[trigger] ls[j] != code_directive()) ==> seg_scan(ls).code_addr
                == word_total(label_scan(seg_scan(ls.take(i)).kept, seg, data_start).kept),
        forall|i: int|
            0 <= i < ls.len() && #[trigger] ls[i] == data_directive() && (forall|j: int|
                i < j < ls.len() ==> #[trigger] ls[j] != data_directive()) ==> seg_scan(ls).data_addr
                == word_total(label_scan(seg_scan(ls.take(i)).kept, seg, data_start).kept),
        (forall|j: int| 0 <= j < ls.len() ==> #[trigger] ls[j] != code_directive()) ==> seg_scan(ls).code_addr
            == 0 && seg_scan(ls).code_len == 0,
        (forall|j: int| 0 <= j < ls.len() ==> #[trigger] ls[j] != data_directive()) ==> seg_scan(ls).data_addr
            == 0 && seg_scan(ls).data_len == 0,
{
    lemma_seg_absent(ls);
    assert forall|i: int|
        0 <= i < ls.len() && #[trigger] ls[i] == code_directive() && (forall|j: int|
            i < j < ls.len() ==> #[trigger] ls[j] != code_directive()) implies seg_scan(ls).code_addr
        == word_total(label_scan(seg_scan(ls.take(i)).kept, seg, data_start).kept) by {
        lemma_seg_starts_from(ls, i);
        lemma_segments_count_written_words(ls.take(i), seg, data_start);
    }
    assert forall|i: int|
        0 <= i < ls.len() && #[trigger] ls[i] == data_directive() && (forall|j: int|
            i < j < ls.len() ==> #[trigger] ls[j] != data_directive()) implies seg_scan(ls).data_addr
        == word_total(label_scan(seg_scan(ls.take(i)).kept, seg, data_start).kept) by {
        lemma_seg_starts_from(ls, i);
        lemma_segments_count_written_words(ls.take(i), seg, data_start);
    }
}

impl SegInfo {
    /// Finds the segments: drops the directives and the lines before the
    /// first one, and records where each segment starts (in words, not
    /// counting label definitions) and how many words it holds.
    pub fn resolve_seginfo(input: Metadata) -> (r: Result<Metadata, std::io::Error>)
        ensures
            r matches Ok(out) && {
                let sc = seg_scan(lines(input.text@));
                &&& out.text@ == join(sc.kept, '\n')
                &&& out.text@.len() <= usize::MAX
                &&& out.seg_info.code.addr == sc.code_addr
                &&& out.seg_info.code.len == sc.code_len
                &&& out.seg_info.data.addr == sc.data_addr
                &&& out.seg_info.data.len == sc.data_len
                &&& out.label_info == input.label_info
                &&& out.mem_layout == input.mem_layout
            },
    {
        let mut input = input;
        let mut info = SegInfo::new();
        let mut dst: Vec<Vec<char>> = Vec::new();
        let mut on_code_seg = false;
        let mut on_data_seg = false;
        let mut line_counter: usize = 0;
        let ls = text_lines(input.text.as_str());
        let ghost all = views(ls@);
        let mut i: usize = 0;
        assert(all.take(0) =~= seq![]);
        assert(all.skip(0) =~= all);
        assert(views(dst@) =~= seq![]);
        while i < ls.len()
            invariant
                i <= ls.len(),
                all == views(ls@),
                all == lines(input.text@),
                total_len(all) <= usize::MAX,
                ({
                    let sc = seg_scan(all.take(i as int));
                    &&& info.code.addr == sc.code_addr
                    &&& info.code.len == sc.code_len
                    &&& info.data.addr == sc.data_addr
                    &&& info.data.len == sc.data_len
                    &&& line_counter == sc.counter
                    &&& on_code_seg == sc.on_code
                    &&& on_data_seg == sc.on_data
                    &&& views(dst@) == sc.kept
                }),
                line_counter + total_len(all.skip(i as int)) <= total_len(all),
                info.code.len + info.data.len <= line_counter,
                info.code.addr <= line_counter,
                info.data.addr <= line_counter,
            decreases ls.len() - i,
        {
            let ghost prev = seg_scan(all.take(i as int));
            assert(all.take(i + 1).drop_last() =~= all.take(i as int));
            let l = &ls[i];
            assert(all[i as int] == l@);
            assert(all.take(i + 1).last() == l@);
            proof {
                lemma_total_len_skip(all, i as int);
                lemma_words_len(l@);
            }
            if chars_eq(l.as_slice(), &['.', 'c', 'o', 'd', 'e']) {
                info.code.addr = line_counter;
                on_code_seg = true;
                on_data_seg = false;
            } else if chars_eq(l.as_slice(), &['.', 'd', 'a', 't', 'a']) {
                info.data.addr = line_counter;
                on_code_seg = false;
                on_data_seg = true;
            } else {
                let line = string_of(l);
                let ws = split_words(l);
                assert(views(ws@).len() == ws@.len());
                let num = if Label::from_str_counter(line.as_str(), line_counter).is_none() {
                    ws.len()
                } else {
                    ws.len() - 1
                };
                assert(num == line_size(l@));
                if on_code_seg {
                    info.code.len += num;
                } else if on_data_seg {
                    info.data.len += num;
                }
                if on_code_seg || on_data_seg {
                    line_counter += num;
                }
                if on_code_seg || on_data_seg {
                    let ghost before = views(dst@);
                    let copy = prefix_chars(l, l.len());
                    assert(l@.take(l.len() as int) =~= l@);
                    dst.push(copy);
                    assert(views(dst@) =~= before.push(l@));
                }
            }
            i += 1;
        }
        assert(all.take(i as int) =~= all);
        input.text = lines_text(&dst);
        input.seg_info = info;
        Ok(input)
    }
}

} // verus!
