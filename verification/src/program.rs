//! The whole assembler: the passes over the source text in order, then the
//! writing of the memory image.
use vstd::prelude::*;
use crate::encoder::{
    asm_failure, asm_scan, assembled, immediates_in_image, lemma_asm_failure_ok, lemma_asm_scan_shape,
    try_assemble,
};
use crate::frontend::CustomError;
use crate::metadata::labelinfo::immediatetrick::{
    immediate_ok, lemma_imm_pass_lines, lemma_imm_scan_layout, operand_replaced_by_stored, distinct_immediates, is_immediate, lemma_immediate_operands, immediates_all_parse, immediates_parse, imm_scan, ImmScan,
    ImmediateAddressing,
};
use crate::text_laws::word_line;
use crate::metadata::labelinfo::label::{lemma_label_scan_bounds, lemma_label_pass_lines, has_no_blank_lines, label_scan, no_blank_lines, Label, LabelScan};
use crate::metadata::labelinfo::{lemma_labels_applied_lines, labels_applied, LabelInfo};
use crate::metadata::memlayout::{lemma_store_all_reads, stride, MemView, NeanderMem, SIM_MEM_SIZE};
use crate::metadata::segment::{seg_scan, SegInfo, SegScan, Segment};
use crate::metadata::{clean_lines, lowered_lines, to_lower_chop_comment, Metadata};
use crate::text::{decimal, lemma_lines_total_len, join, lines, parse_u8, words};

verus! {

/// The source in lower case, without comments, surrounding whitespace or
/// empty lines.
pub open spec fn cleaned_text(source: Seq<char>) -> Seq<char> {
    join(clean_lines(lowered_lines(lines(source))), '\n')
}

/// The segment pass over the cleaned source.
pub open spec fn segmented(source: Seq<char>) -> SegScan {
    seg_scan(lines(cleaned_text(source)))
}

/// The segments that the segment pass found.
pub open spec fn seg_info_of(sc: SegScan) -> SegInfo {
    SegInfo {
        code: Segment { addr: sc.code_addr as usize, len: sc.code_len as usize },
        data: Segment { addr: sc.data_addr as usize, len: sc.data_len as usize },
    }
}

/// The label pass after the segment pass.
pub open spec fn labelled(source: Seq<char>) -> LabelScan {
    let sc = segmented(source);
    label_scan(lines(join(sc.kept, '\n')), seg_info_of(sc), SIM_MEM_SIZE as nat / 2)
}

/// The immediate pass after the label pass.
pub open spec fn with_immediates(source: Seq<char>) -> ImmScan {
    imm_scan(lines(join(labelled(source).kept, '\n')), SIM_MEM_SIZE - 1)
}

/// The text once the label operands are replaced by addresses.
pub open spec fn resolved_text(source: Seq<char>) -> Seq<char> {
    join(labels_applied(lines(join(with_immediates(source).kept, '\n')), labelled(source).labels), '\n')
}

/// The memory image of a program, in the simulator's format.
pub open spec fn program_image(source: Seq<char>, extended: bool) -> MemView {
    assembled(
        resolved_text(source),
        NeanderMem::initial(true),
        seg_info_of(segmented(source)),
        with_immediates(source).imms,
        extended,
    )
}

/// Whether the data segment's words, placed from the middle of memory,
/// have addresses that fit in a machine word.
pub open spec fn data_segment_fits(sc: SegScan) -> bool {
    sc.data_len + SIM_MEM_SIZE / 2 <= usize::MAX
}

/// Why a program cannot be assembled, if it cannot: the first pass that
/// would fail, and how.
pub open spec fn program_error(source: Seq<char>, extended: bool) -> Option<CustomError> {
    let sc = segmented(source);
    let t2 = join(sc.kept, '\n');
    let t3 = join(labelled(source).kept, '\n');
    let mem = NeanderMem::initial(true);
    let f = asm_failure(lines(resolved_text(source)), mem, seg_info_of(sc), extended);
    if !no_blank_lines(t2) {
        Some(CustomError::MalformedLine)
    } else if !data_segment_fits(sc) {
        Some(CustomError::Directive)
    } else if !immediates_parse(t3) {
        Some(CustomError::MalformedLine)
    } else if with_immediates(source).imms.len() >= SIM_MEM_SIZE {
        Some(CustomError::NotEnoughMemory)
    } else if f is Some {
        f
    } else if !immediates_in_image(with_immediates(source).imms, mem) {
        Some(CustomError::NotEnoughMemory)
    } else {
        None
    }
}

/// Assembles a program into a memory image in the simulator's format: the
/// passes in order (case and comments, segments, label definitions,
/// immediates, label operands), then the writing of the image; or says why
/// the program cannot be assembled.
pub fn assemble_program(source: String, extended: bool) -> (r: Result<NeanderMem, CustomError>)
    ensures
        r is Err <==> program_error(source@, extended) is Some,
        r matches Err(e) ==> program_error(source@, extended) == Some(e),
        r matches Ok(mem) ==> mem@ == program_image(source@, extended),
{
    let ghost src = source@;
    let mut m = Metadata::new();
    m.text = source;
    let m = to_lower_chop_comment(m).unwrap();
    let m = SegInfo::resolve_seginfo(m).unwrap();
    assert(m.seg_info == seg_info_of(segmented(src)));
    if !has_no_blank_lines(m.text.as_str()) {
        return Err(CustomError::MalformedLine);
    }
    let half = m.mem_layout.mem_size / 2;
    if m.seg_info.data.len > usize::MAX - half {
        return Err(CustomError::Directive);
    }
    proof {
        lemma_lines_total_len(m.text@);
        lemma_label_scan_bounds(lines(m.text@), m.seg_info, half as nat);
    }
    let m = Label::resolve_label_defs(m).unwrap();
    proof {
        lemma_program_passes(src);
    }
    if !immediates_all_parse(m.text.as_str()) {
        return Err(CustomError::MalformedLine);
    }
    let count = distinct_immediates(m.text.as_str(), Ghost(m.mem_layout.mem_size - 1));
    if count >= m.mem_layout.mem_size {
        return Err(CustomError::NotEnoughMemory);
    }
    let m = ImmediateAddressing::resolve_immediates(m).unwrap();
    let m = LabelInfo::apply_labels(m).unwrap();
    try_assemble(m, extended)
}


/// After the label pass no pass meets a blank line, and the passes that
/// follow it (immediates, then label operands) keep each line and its
/// number of words: every line that the assembler reads has exactly as many
/// words as the line that the label pass wrote in its place, so the word
/// positions that the label pass gave its labels are those the assembler counts.
pub proof fn lemma_program_passes(source: Seq<char>)
    ensures
        ({
            let t3 = join(labelled(source).kept, '\n');
            let t4 = join(with_immediates(source).kept, '\n');
            let k3 = labelled(source).kept;
            let k5 = labels_applied(lines(t4), labelled(source).labels);
            &&& no_blank_lines(t3)
            &&& no_blank_lines(t4)
            &&& lines(resolved_text(source)) == k5
            &&& k5.len() == k3.len()
            &&& forall|i: int| 0 <= i < k3.len() ==> #[trigger] words(k5[i]).len() == words(k3[i]).len()
        }),
{
    let sc = segmented(source);
    let k3 = labelled(source).kept;
    lemma_label_pass_lines(lines(join(sc.kept, '\n')), seg_info_of(sc), SIM_MEM_SIZE as nat / 2);
    assert forall|i: int| 0 <= i < k3.len() implies #[trigger] words(k3[i]).len() > 0 by {
        assert(word_line(k3[i]));
    }
    lemma_imm_pass_lines(k3, SIM_MEM_SIZE - 1);
    let k4 = with_immediates(source).kept;
    assert forall|i: int| 0 <= i < k4.len() implies #[trigger] words(k4[i]).len() > 0 by {
        assert(word_line(k4[i]));
    }
    lemma_labels_applied_lines(k4, labelled(source).labels);
    let k5 = labels_applied(lines(join(k4, '\n')), labelled(source).labels);
    assert forall|i: int| 0 <= i < k3.len() implies #[trigger] words(k5[i]).len() == words(k3[i]).len() by {
        assert(words(k4[i]).len() == words(k3[i]).len());
    }
}

/// In the image of a program, the immediate values are stored once each,
/// at addresses going down from the top of memory, one per distinct value,
/// and each is found in the image at its address (in the simulator's
/// format, where each machine byte takes two bytes of the image).
pub proof fn lemma_program_immediates(source: Seq<char>, extended: bool)
    requires
        program_error(source, extended) is None,
    ensures
        ({
            let imms = with_immediates(source).imms;
            let img = program_image(source, extended);
            &&& forall|k: int| 0 <= k < imms.len() ==> #[trigger] imms[k].addr == SIM_MEM_SIZE - 1 - k
            &&& forall|j: int, k: int|
                0 <= j < k < imms.len() ==> #[trigger] imms[j].value != #[trigger] imms[k].value
            &&& forall|k: int| 0 <= k < imms.len() ==> #[trigger] img.arr[imms[k].addr * 2] == imms[k].value
        }),
{
    let sc = segmented(source);
    let t3 = join(labelled(source).kept, '\n');
    let imms = with_immediates(source).imms;
    let mem = NeanderMem::initial(true);
    let ls = lines(resolved_text(source));
    let seg = seg_info_of(sc);
    lemma_imm_scan_layout(lines(t3), SIM_MEM_SIZE - 1);
    lemma_asm_failure_ok(ls, mem, seg, extended);
    lemma_asm_scan_shape(ls, mem, seg, extended);
    let st = asm_scan(ls, mem, seg, extended);
    assert(stride(st.mem.target_sim) == 2);
    assert forall|i: int| 0 <= i < imms.len() implies #[trigger] (imms[i].addr * 2) < st.mem.arr.len() by {
        assert(imms[i].addr * stride(mem.target_sim) < mem.arr.len());
    }
    assert forall|i: int, j: int| 0 <= i < j < imms.len() implies #[trigger] (imms[i].addr * 2)
        != #[trigger] (imms[j].addr * 2) by {
        assert(imms[i].addr == SIM_MEM_SIZE - 1 - i);
        assert(imms[j].addr == SIM_MEM_SIZE - 1 - j);
    }
    lemma_store_all_reads(st.mem.arr, imms, 2);
}


/// Whether `out` is `line` with its immediate operand replaced by the
/// address of a stored immediate whose value is the byte that the operand's
/// digits denote, and the image holds that byte at that address.
pub open spec fn operand_stored_in_image(
    line: Seq<char>,
    out: Seq<char>,
    imms: Seq<ImmediateAddressing>,
    img: MemView,
) -> bool {
    exists|k: int|
        #![trigger imms[k]]
        0 <= k < imms.len() && Some(imms[k].value) == parse_u8(words(line).last().drop_first())
            && words(out) == words(line).drop_last().push(decimal(imms[k].addr as nat))
            && img.arr[imms[k].addr * 2] == imms[k].value
}

/// In an assembled program, each immediate operand `$d` (left by the label
/// pass) is replaced by an address at which the image holds the byte that
/// the digits `d` denote.
pub proof fn lemma_program_immediate_values(source: Seq<char>, extended: bool)
    requires
        program_error(source, extended) is None,
    ensures
        forall|i: int|
            0 <= i < labelled(source).kept.len() && is_immediate(words(labelled(source).kept[i]).last())
                ==> operand_stored_in_image(
                labelled(source).kept[i],
                #[trigger] with_immediates(source).kept[i],
                with_immediates(source).imms,
                program_image(source, extended),
            ),
{
    let sc = segmented(source);
    let k3 = labelled(source).kept;
    let t3 = join(k3, '\n');
    let imms = with_immediates(source).imms;
    let img = program_image(source, extended);
    lemma_label_pass_lines(lines(join(sc.kept, '\n')), seg_info_of(sc), SIM_MEM_SIZE as nat / 2);
    assert(lines(t3) == k3);
    assert forall|i: int| 0 <= i < k3.len() implies #[trigger] words(k3[i]).len() > 0 by {
        assert(word_line(k3[i]));
    }
    lemma_immediate_operands(k3, SIM_MEM_SIZE - 1);
    lemma_program_immediates(source, extended);
    assert forall|i: int|
        0 <= i < k3.len() && is_immediate(words(k3[i]).last()) implies operand_stored_in_image(
        k3[i],
        #[trigger] with_immediates(source).kept[i],
        imms,
        img,
    ) by {
        assert(immediates_parse(t3));
        assert(immediate_ok(words(lines(t3)[i]).last()));
        assert(operand_replaced_by_stored(k3[i], with_immediates(source).kept[i], imms));
        let k = choose|k: int|
            #![trigger imms[k]]
            0 <= k < imms.len() && Some(imms[k].value) == parse_u8(words(k3[i]).last().drop_first())
                && words(with_immediates(source).kept[i]) == words(k3[i]).drop_last().push(
                decimal(imms[k].addr as nat),
            );
        assert(img.arr[imms[k].addr * 2] == imms[k].value);
    }
}

} // verus!
