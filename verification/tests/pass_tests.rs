use lib::encoder::{assemble, try_assemble};
use lib::frontend::CustomError;
use lib::metadata::labelinfo::immediatetrick::{immediates_all_parse, ImmediateAddressing};
use lib::metadata::labelinfo::label::{has_no_blank_lines, Label};
use lib::metadata::labelinfo::LabelInfo;
use lib::metadata::memlayout::NeanderMem;
use lib::metadata::segment::{SegInfo, Segment};
use lib::metadata::{chop_comments, to_lower_chop_comment, Metadata};
use lib::program::assemble_program;

const SOURCE: &str = "; sum\n.code\n  LDA x\nADD $5   ; add five\nSTA y\nHLT\n\n.data\nx: 3\ny: 0\n";

fn meta(text: &str) -> Metadata {
    let mut m = Metadata::new();
    m.text = text.to_string();
    m
}

#[test]
fn new_metadata_is_empty() {
    let m = Metadata::new();
    assert_eq!(m.text, "");
    assert_eq!(m.seg_info, SegInfo { code: Segment { addr: 0, len: 0 }, data: Segment { addr: 0, len: 0 } });
    assert!(m.label_info.labels.is_empty());
    assert!(m.label_info.immediates.is_empty());
    assert!(m.mem_layout.target_sim);
    let d = Metadata::default();
    assert_eq!(d.text, "");
    assert_eq!(SegInfo::default(), SegInfo::new());
    assert!(LabelInfo::default().labels.is_empty());
}

#[test]
fn lower_case_and_comments() {
    let m = to_lower_chop_comment(meta(SOURCE)).unwrap();
    assert_eq!(m.text, ".code\nlda x\nadd $5\nsta y\nhlt\n.data\nx: 3\ny: 0");
    let m = to_lower_chop_comment(meta("ÀB ; c\n   \n;only\n")).unwrap();
    assert_eq!(m.text, "àb");
    assert_eq!(chop_comments(&vec!["a ;b".to_string(), " ".to_string(), " c ".to_string()]), "a\nc");
}

#[test]
fn segments() {
    let m = to_lower_chop_comment(meta(SOURCE)).unwrap();
    let m = SegInfo::resolve_seginfo(m).unwrap();
    assert_eq!(m.text, "lda x\nadd $5\nsta y\nhlt\nx: 3\ny: 0");
    assert_eq!(m.seg_info.code, Segment { addr: 0, len: 7 });
    assert_eq!(m.seg_info.data, Segment { addr: 7, len: 2 });
    assert_eq!(m.seg_info.code.len + m.seg_info.data.len, 9);
}

#[test]
fn lines_before_a_directive_are_dropped() {
    let m = SegInfo::resolve_seginfo(meta("lda 1\n.data\n5\n.code\nhlt")).unwrap();
    assert_eq!(m.text, "5\nhlt");
    assert_eq!(m.seg_info.data, Segment { addr: 0, len: 1 });
    assert_eq!(m.seg_info.code, Segment { addr: 1, len: 1 });
}

#[test]
fn label_from_line() {
    let l = Label::from_str_counter("loop: add 5", 4).unwrap();
    assert_eq!(l.name, "loop");
    assert_eq!(l.addr, 4);
    assert!(Label::from_str_counter("add 5", 4).is_none());
    assert!(Label::from_str_counter("", 4).is_none());
    let l = Label::from_str_counter("  x:", 0).unwrap();
    assert_eq!(l.name, "x");
}

#[test]
fn label_definitions() {
    let m = to_lower_chop_comment(meta(SOURCE)).unwrap();
    let m = SegInfo::resolve_seginfo(m).unwrap();
    let m = Label::resolve_label_defs(m).unwrap();
    assert_eq!(m.text, "lda x\nadd $5\nsta y\nhlt\n3\n0");
    let names: Vec<(String, usize)> = m.label_info.labels.iter().map(|l| (l.name.clone(), l.addr)).collect();
    assert_eq!(names, vec![("x".to_string(), 128), ("y".to_string(), 129)]);
}

#[test]
fn label_alone_on_its_line() {
    let mut m = meta("start:\nlda 1\njmp start");
    m.seg_info = SegInfo { code: Segment { addr: 0, len: 4 }, data: Segment { addr: 4, len: 0 } };
    let m = Label::resolve_label_defs(m).unwrap();
    assert_eq!(m.text, "lda 1\njmp start");
    assert_eq!(m.label_info.labels[0].addr, 0);
}

#[test]
fn immediates() {
    let m = Metadata { text: "lda $5\nadd $7\nsub $5\nhlt".to_string(), ..Metadata::new() };
    let m = ImmediateAddressing::resolve_immediates(m).unwrap();
    assert_eq!(m.text, "lda 255\nadd 254\nsub 255\nhlt");
    let imms: Vec<(u8, usize)> = m.label_info.immediates.iter().map(|i| (i.value, i.addr)).collect();
    assert_eq!(imms, vec![(5, 255), (7, 254)]);
}

#[test]
fn apply_label_operands() {
    let mut m = meta("lda x\nadd  255\njmp loop\nhlt");
    m.label_info.labels.push(Label { name: "x".to_string(), addr: 128 });
    m.label_info.labels.push(Label { name: "loop".to_string(), addr: 2 });
    m.label_info.labels.push(Label { name: "x".to_string(), addr: 9 });
    let m = LabelInfo::apply_labels(m).unwrap();
    assert_eq!(m.text, "lda 128\nadd 255\njmp 2\nhlt");
}

#[test]
fn checkers() {
    assert!(has_no_blank_lines("a\nb"));
    assert!(!has_no_blank_lines("a\n \nb"));
    assert!(has_no_blank_lines(""));
    assert!(immediates_all_parse("lda $5\nhlt"));
    assert!(!immediates_all_parse("lda $300"));
    assert!(!immediates_all_parse("lda $"));
}

fn prepared() -> Metadata {
    let m = to_lower_chop_comment(meta(SOURCE)).unwrap();
    let m = SegInfo::resolve_seginfo(m).unwrap();
    let m = Label::resolve_label_defs(m).unwrap();
    let m = ImmediateAddressing::resolve_immediates(m).unwrap();
    LabelInfo::apply_labels(m).unwrap()
}

fn expected_image() -> Vec<u8> {
    let mut arr = vec![0u8; 512];
    arr[0..14].copy_from_slice(&[0x20, 0, 128, 0, 0x30, 0, 255, 0, 0x10, 0, 129, 0, 0xf0, 0]);
    arr[256] = 3;
    arr[258] = 0;
    arr[510] = 5;
    arr
}

#[test]
fn assemble_sum_program() {
    let m = prepared();
    assert_eq!(m.text, "lda 128\nadd 255\nsta 129\nhlt\n3\n0");
    let mem = assemble(m, false);
    assert_eq!(mem.arr, expected_image());
    assert_eq!(mem.code_seg_byte, 14);
    assert_eq!(mem.data_seg_byte, 4);
}

#[test]
fn whole_program() {
    let mem = assemble_program(SOURCE.to_string(), false).unwrap();
    assert_eq!(mem.arr, expected_image());
    let out = mem.to_output_bytes();
    assert_eq!(&out[0..4], &[0x03, 0x4e, 0x44, 0x52]);
    assert_eq!(&out[4..], &expected_image()[..]);
}

#[test]
fn immediate_value_stored_at_its_address() {
    let mem = assemble_program(".code\nlda $9\nadd $4\nadd $9\nhlt".to_string(), false).unwrap();
    assert_eq!(mem.arr[255 * 2], 9);
    assert_eq!(mem.arr[254 * 2], 4);
    assert_eq!(&mem.arr[0..4], &[0x20, 0, 255, 0]);
    assert_eq!(&mem.arr[8..12], &[0x30, 0, 255, 0]);
}

#[test]
fn error_instruction() {
    let r = assemble_program(".code\nadd r1, r2\nhlt".to_string(), true);
    assert_eq!(r.err(), Some(CustomError::Instruction));
    let mut m = Metadata { text: "add rx".to_string(), ..Metadata::new() };
    m.seg_info.code.len = 2;
    let r = try_assemble(m, true);
    assert_eq!(r.err(), Some(CustomError::Instruction));
    let r = try_assemble(Metadata { text: "add rx".to_string(), ..Metadata::new() }, true);
    assert_eq!(r.err(), Some(CustomError::MalformedLine));
}

#[test]
fn error_malformed_data() {
    let r = assemble_program(".data\n300".to_string(), false);
    assert_eq!(r.err(), Some(CustomError::MalformedLine));
    let r = assemble_program(".code\nlda $256".to_string(), false);
    assert_eq!(r.err(), Some(CustomError::MalformedLine));
}

#[test]
fn error_not_enough_memory_for_code() {
    let mut src = String::from(".code\n");
    for _ in 0..129 {
        src.push_str("lda 1\n");
    }
    let r = assemble_program(src, false);
    assert_eq!(r.err(), Some(CustomError::NotEnoughMemory));
}

#[test]
fn error_not_enough_memory_for_immediates() {
    let mut src = String::from(".code\n");
    for i in 0..256 {
        src.push_str(&format!("add ${}\n", i));
    }
    let r = assemble_program(src, false);
    assert_eq!(r.err(), Some(CustomError::NotEnoughMemory));
}

#[test]
fn extended_program() {
    let mem = assemble_program(".code\nlda r1 130\nadd r1 r2\nneg r3\nhlt".to_string(), true).unwrap();
    assert_eq!(&mem.arr[0..12], &[0x24, 0, 130, 0, 0x36, 0, 0xcc, 0, 0xf0, 0, 0, 0]);
}

#[test]
fn data_first_program() {
    let mem = assemble_program(".data\nv: 7\n.code\nlda v\nhlt".to_string(), false).unwrap();
    assert_eq!(mem.arr[256], 7);
    assert_eq!(&mem.arr[0..6], &[0x20, 0, 128, 0, 0xf0, 0]);
}

#[test]
fn later_passes_keep_word_counts() {
    let m = to_lower_chop_comment(meta(SOURCE)).unwrap();
    let m = SegInfo::resolve_seginfo(m).unwrap();
    let m = Label::resolve_label_defs(m).unwrap();
    let after_labels: Vec<usize> = m.text.lines().map(|l| l.split_whitespace().count()).collect();
    assert!(after_labels.iter().all(|n| *n > 0));
    let m = ImmediateAddressing::resolve_immediates(m).unwrap();
    let m = LabelInfo::apply_labels(m).unwrap();
    let resolved: Vec<usize> = m.text.lines().map(|l| l.split_whitespace().count()).collect();
    assert_eq!(after_labels, resolved);
}

#[test]
fn cleaned_lines_shape() {
    let m = to_lower_chop_comment(meta("  A ; x\n\n\tB c;;\n;\n d ")).unwrap();
    assert_eq!(m.text, "a\nb c\nd");
    for l in m.text.lines() {
        assert!(!l.is_empty());
        assert!(!l.contains(';'));
        assert_eq!(l, l.trim());
    }
}

#[test]
fn immediates_are_distinct_and_descend_from_the_top() {
    let m = Metadata { text: "lda $1\nadd $2\nadd $1\nsub $3\nadd $2".to_string(), ..Metadata::new() };
    let m = ImmediateAddressing::resolve_immediates(m).unwrap();
    let imms: Vec<(u8, usize)> = m.label_info.immediates.iter().map(|i| (i.value, i.addr)).collect();
    assert_eq!(imms, vec![(1, 255), (2, 254), (3, 253)]);
    assert_eq!(m.text, "lda 255\nadd 254\nadd 255\nsub 253\nadd 254");
}

#[test]
fn apply_labels_twice_changes_nothing() {
    let mut m = meta("lda x\n  add   y\njmp loop\nhlt");
    m.label_info.labels.push(Label { name: "x".to_string(), addr: 128 });
    m.label_info.labels.push(Label { name: "y".to_string(), addr: 129 });
    m.label_info.labels.push(Label { name: "loop".to_string(), addr: 0 });
    let once = LabelInfo::apply_labels(m).unwrap();
    assert_eq!(once.text, "lda 128\nadd 129\njmp 0\nhlt");
    assert!(has_no_blank_lines(&once.text));
    let first = once.text.clone();
    let twice = LabelInfo::apply_labels(once).unwrap();
    assert_eq!(twice.text, first);
}

#[test]
fn cleaning_twice_changes_nothing() {
    let once = to_lower_chop_comment(meta(SOURCE)).unwrap();
    let first = once.text.clone();
    let twice = to_lower_chop_comment(once).unwrap();
    assert_eq!(twice.text, first);
}
