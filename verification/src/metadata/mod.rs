//! What the assembler knows of a program as it goes through its passes:
//! the text, the segments, the labels and immediates, and the memory image.
use vstd::prelude::*;
use crate::metadata::labelinfo::LabelInfo;
use crate::metadata::memlayout::NeanderMem;
use crate::metadata::segment::SegInfo;
use crate::text::{
    is_ws, before_char, chars_of, join, lines, lowercase, string_of, text_lines, to_lowercase, trim,
    trim_chars, lines_text, views,
};
use crate::utils::strutils::{trim_comment, COMMENT_CHAR};
use crate::text_laws::{
    lemma_before_char_absent, lemma_trim_fixed, lemma_before_char_idempotent, lemma_before_char_prefix, lemma_trim_props, lemma_word_lines_read_back,
    lemma_words_nonempty, word_line,
};

pub mod labelinfo;
pub mod memlayout;
pub mod segment;

verus! {

/// `std::io::Error`, the error type of the passes, carried through unopened.
#[verifier::external_type_specification]
#[verifier::external_body]
pub struct ExIoError(std::io::Error);

/// The state passed from one pass of the assembler to the next.
pub struct Metadata {
    pub seg_info: SegInfo,
    pub label_info: LabelInfo,
    pub mem_layout: NeanderMem,
    pub text: String,
}

impl Metadata {
    /// Empty segments, no labels, a zeroed image in the simulator's format,
    /// and no text.
    pub fn new() -> (m: Metadata)
        ensures
            m.seg_info == SegInfo::empty(),
            m.label_info.labels@.len() == 0,
            m.label_info.immediates@.len() == 0,
            m.mem_layout@ == NeanderMem::initial(true),
            m.text@.len() == 0,
    {
        Metadata {
            seg_info: SegInfo::new(),
            label_info: LabelInfo::new(),
            mem_layout: NeanderMem::new(true),
            text: String::new(),
        }
    }
}

impl Default for Metadata {
    fn default() -> (m: Self)
        ensures
            m.seg_info == SegInfo::empty(),
            m.label_info.labels@.len() == 0,
            m.label_info.immediates@.len() == 0,
            m.mem_layout@ == NeanderMem::initial(true),
            m.text@.len() == 0,
    {
        Self::new()
    }
}

/// A line without its comment and without surrounding whitespace.
pub open spec fn clean_line(l: Seq<char>) -> Seq<char> {
    trim(before_char(l, COMMENT_CHAR))
}

/// The cleaned lines that are not empty, in order.
pub open spec fn clean_lines(ls: Seq<Seq<char>>) -> Seq<Seq<char>>
    decreases ls.len(),
{
    if ls.len() == 0 {
        seq![]
    } else {
        let rest = clean_lines(ls.drop_last());
        let c = clean_line(ls.last());
        if c.len() > 0 {
            rest.push(c)
        } else {
            rest
        }
    }
}

/// Each line that comment chopping keeps is not empty, holds no comment
/// character, and neither starts nor ends with whitespace; when no line
/// given to it holds a newline, each kept line has a word and the text it
/// writes reads back as exactly the kept lines.
pub proof fn lemma_clean_lines_shape(ls: Seq<Seq<char>>)
    ensures
        forall|k: int|
            0 <= k < clean_lines(ls).len() ==> {
                let c = #[trigger] clean_lines(ls)[k];
                &&& c.len() > 0
                &&& !c.contains(COMMENT_CHAR)
                &&& !is_ws(c[0]) && !is_ws(c.last())
            },
        (forall|i: int, j: int| 0 <= i < ls.len() && 0 <= j < ls[i].len() ==> #[trigger] ls[i][j] != '\n')
            ==> lines(join(clean_lines(ls), '\n')) == clean_lines(ls) && forall|k: int|
            0 <= k < clean_lines(ls).len() ==> word_line(#[trigger] clean_lines(ls)[k]),
    decreases ls.len(),
{
    let r = clean_lines(ls);
    if ls.len() > 0 {
        let init = ls.drop_last();
        lemma_clean_lines_shape(init);
        let l = ls.last();
        let b = before_char(l, COMMENT_CHAR);
        let c = clean_line(l);
        lemma_before_char_idempotent(l, COMMENT_CHAR);
        lemma_before_char_prefix(l, COMMENT_CHAR);
        lemma_trim_props(b);
        let a = choose|a: int| 0 <= a <= b.len() - c.len() && #[trigger] b.subrange(a, a + c.len()) == c;
        assert forall|j: int| 0 <= j < c.len() implies c[j] == l[a + j] && c[j] == b[a + j] by {
            assert(c[j] == b.subrange(a, a + c.len())[j]);
            assert(b[a + j] == l.take(b.len() as int)[a + j]);
        }
        if c.contains(COMMENT_CHAR) {
            let j = choose|j: int| 0 <= j < c.len() && c[j] == COMMENT_CHAR;
            assert(b[a + j] == COMMENT_CHAR);
            assert(b.contains(COMMENT_CHAR));
        }
        assert forall|k: int| 0 <= k < r.len() implies {
            let x = #[trigger] r[k];
            &&& x.len() > 0
            &&& !x.contains(COMMENT_CHAR)
            &&& !is_ws(x[0]) && !is_ws(x.last())
        } by {
            if k < clean_lines(init).len() {
                assert(r[k] == clean_lines(init)[k]);
            } else {
                assert(r[k] == c);
            }
        }
        if forall|i: int, j: int| 0 <= i < ls.len() && 0 <= j < ls[i].len() ==> #[trigger] ls[i][j] != '\n' {
            assert forall|i: int, j: int| 0 <= i < init.len() && 0 <= j < init[i].len() implies #[trigger] init[i][j]
                != '\n' by {
                assert(init[i] == ls[i]);
            }
            assert forall|k: int| 0 <= k < r.len() implies word_line(#[trigger] r[k]) by {
                if k < clean_lines(init).len() {
                    assert(r[k] == clean_lines(init)[k]);
                } else {
                    assert(r[k] == c);
                    assert forall|j: int| 0 <= j < c.len() implies #[trigger] c[j] != '\n' by {
                        assert(ls[ls.len() - 1][a + j] != '\n');
                    }
                    lemma_words_nonempty(c, 0);
                }
            }
        }
    }
    if forall|i: int, j: int| 0 <= i < ls.len() && 0 <= j < ls[i].len() ==> #[trigger] ls[i][j] != '\n' {
        if ls.len() > 0 {
            let init = ls.drop_last();
            assert forall|i: int, j: int| 0 <= i < init.len() && 0 <= j < init[i].len() implies #[trigger] init[i][j]
                != '\n' by {
                assert(init[i] == ls[i]);
            }
        }
        lemma_word_lines_read_back(r);
    }
}

/// Lines that are their own cleaned form (non-empty, without comment
/// character, not starting or ending with whitespace) are all kept as they are.
proof fn lemma_clean_lines_fixed(cs: Seq<Seq<char>>)
    requires
        forall|k: int|
            0 <= k < cs.len() ==> {
                let c = #[trigger] cs[k];
                &&& c.len() > 0
                &&& !c.contains(COMMENT_CHAR)
                &&& !is_ws(c[0]) && !is_ws(c.last())
            },
    ensures
        clean_lines(cs) == cs,
    decreases cs.len(),
{
    if cs.len() > 0 {
        let init = cs.drop_last();
        assert forall|k: int| 0 <= k < init.len() implies {
            let c = #[trigger] init[k];
            &&& c.len() > 0
            &&& !c.contains(COMMENT_CHAR)
            &&& !is_ws(c[0]) && !is_ws(c.last())
        } by {
            assert(init[k] == cs[k]);
        }
        lemma_clean_lines_fixed(init);
        let c = cs.last();
        assert(cs[cs.len() - 1] == c);
        lemma_before_char_absent(c, COMMENT_CHAR);
        lemma_trim_fixed(c);
        assert(clean_lines(cs) =~= init.push(c));
    }
}

/// Cleaning lines that hold no newline, and then cleaning the lines of the
/// text written, changes nothing more: comment chopping is idempotent.
pub proof fn lemma_chop_comments_idempotent(ls: Seq<Seq<char>>)
    requires
        forall|i: int, j: int| 0 <= i < ls.len() && 0 <= j < ls[i].len() ==> #[trigger] ls[i][j] != '\n',
    ensures
        clean_lines(lines(join(clean_lines(ls), '\n'))) == clean_lines(ls),
{
    lemma_clean_lines_shape(ls);
    lemma_clean_lines_fixed(clean_lines(ls));
}

/// Case and comment cleaning run twice gives the text of running it once,
/// for a text whose lower-cased lines hold no newline and whose cleaned
/// lines are their own lower-case form.
pub proof fn lemma_to_lower_chop_comment_idempotent(text: Seq<char>)
    requires
        forall|i: int, j: int|
            0 <= i < lowered_lines(lines(text)).len() && 0 <= j < lowered_lines(lines(text))[i].len()
                ==> #[trigger] lowered_lines(lines(text))[i][j] != '\n',
        forall|k: int|
            0 <= k < clean_lines(lowered_lines(lines(text))).len() ==> lowercase(
                #[trigger] clean_lines(lowered_lines(lines(text)))[k],
            ) == clean_lines(lowered_lines(lines(text)))[k],
    ensures
        join(clean_lines(lowered_lines(lines(join(clean_lines(lowered_lines(lines(text))), '\n')))), '\n')
            == join(clean_lines(lowered_lines(lines(text))), '\n'),
{
    let c = clean_lines(lowered_lines(lines(text)));
    lemma_chop_comments_idempotent(lowered_lines(lines(text)));
    lemma_clean_lines_shape(lowered_lines(lines(text)));
    assert(lines(join(c, '\n')) == c);
    assert(lowered_lines(c) =~= c);
}

/// The lower-case form of each line.
pub open spec fn lowered_lines(ls: Seq<Seq<char>>) -> Seq<Seq<char>> {
    ls.map_values(|l: Seq<char>| lowercase(l))
}

/// The views of a sequence of strings.
pub open spec fn string_views(v: Seq<String>) -> Seq<Seq<char>> {
    v.map_values(|s: String| s@)
}

/// Drops comments and surrounding whitespace from each line, drops the lines
/// left empty, and joins the rest with newlines.
pub fn chop_comments(lowered: &Vec<String>) -> (text: String)
    ensures
        text@ == join(clean_lines(string_views(lowered@)), '\n'),
{
    let mut dst: Vec<Vec<char>> = Vec::new();
    let mut i: usize = 0;
    assert(string_views(lowered@).take(0) =~= seq![]);
    assert(views(dst@) =~= seq![]);
    while i < lowered.len()
        invariant
            i <= lowered.len(),
            views(dst@) == clean_lines(string_views(lowered@).take(i as int)),
        decreases lowered.len() - i,
    {
        let ghost ls = string_views(lowered@);
        assert(ls.take(i + 1).drop_last() =~= ls.take(i as int));
        assert(ls.take(i + 1).last() == lowered@[i as int]@);
        let mut line = lowered[i].clone();
        trim_comment(&mut line);
        let cv = chars_of(line.as_str());
        let t = trim_chars(&cv);
        if t.len() > 0 {
            dst.push(t);
            assert(views(dst@) =~= clean_lines(ls.take(i + 1)));
        }
        i += 1;
    }
    assert(string_views(lowered@).take(i as int) =~= string_views(lowered@));
    lines_text(&dst)
}

/// Puts each line of the text in lower case, drops comments, surrounding
/// whitespace and empty lines.
pub fn to_lower_chop_comment(input: Metadata) -> (r: Result<Metadata, std::io::Error>)
    ensures
        r matches Ok(out) && {
            &&& out.text@ == join(clean_lines(lowered_lines(lines(input.text@))), '\n')
            &&& out.seg_info == input.seg_info
            &&& out.label_info == input.label_info
            &&& out.mem_layout == input.mem_layout
        },
{
    let mut input = input;
    let ls = text_lines(input.text.as_str());
    let mut lowered: Vec<String> = Vec::new();
    let mut i: usize = 0;
    while i < ls.len()
        invariant
            i <= ls.len(),
            views(ls@) == lines(input.text@),
            string_views(lowered@) == lowered_lines(views(ls@)).take(i as int),
        decreases ls.len() - i,
    {
        let s = string_of(&ls[i]);
        let l = to_lowercase(s.as_str());
        assert(views(ls@)[i as int] == ls@[i as int]@);
        assert(lowered_lines(views(ls@))[i as int] == l@);
        let ghost before = string_views(lowered@);
        lowered.push(l);
        assert(string_views(lowered@) =~= before.push(l@));
        i += 1;
        assert(string_views(lowered@) =~= lowered_lines(views(ls@)).take(i as int));
    }
    assert(lowered_lines(views(ls@)).take(i as int) =~= lowered_lines(views(ls@)));
    input.text = chop_comments(&lowered);
    Ok(input)
}

} // verus!
