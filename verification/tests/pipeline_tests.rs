use lib::metadata::labelinfo::immediatetrick::ImmediateAddressing;
use lib::metadata::labelinfo::label::Label;
use lib::metadata::labelinfo::LabelInfo;
use lib::metadata::segment::SegInfo;
use lib::metadata::{to_lower_chop_comment, Metadata};
use lib::utils::pipeline::Pipeline;
use std::cell::Cell;
use std::rc::Rc;

type Pass = fn(Metadata) -> Result<Metadata, std::io::Error>;

const SOURCE: &str = "; sum\n.code\n  LDA x\nADD $5   ; add five\nSTA y\nHLT\n\n.data\nx: 3\ny: 0\n";

fn source() -> Metadata {
    let mut m = Metadata::new();
    m.text = SOURCE.to_string();
    m
}

#[test]
fn frontend_passes_in_order() {
    let mut frontend: Pipeline<Pass> = Pipeline::new();
    frontend.add(to_lower_chop_comment);
    frontend.add(SegInfo::resolve_seginfo);
    frontend.add(Label::resolve_label_defs);
    frontend.add(ImmediateAddressing::resolve_immediates);
    frontend.add(LabelInfo::apply_labels);
    let out = frontend.run(source()).unwrap();

    let m = to_lower_chop_comment(source()).unwrap();
    let m = SegInfo::resolve_seginfo(m).unwrap();
    let m = Label::resolve_label_defs(m).unwrap();
    let m = ImmediateAddressing::resolve_immediates(m).unwrap();
    let m = LabelInfo::apply_labels(m).unwrap();
    assert_eq!(out.text, m.text);
    assert_eq!(out.seg_info, m.seg_info);
    let labels = |m: &Metadata| -> Vec<(String, usize)> {
        m.label_info.labels.iter().map(|l| (l.name.clone(), l.addr)).collect()
    };
    let imms = |m: &Metadata| -> Vec<(u8, usize)> {
        m.label_info.immediates.iter().map(|i| (i.value, i.addr)).collect()
    };
    assert_eq!(labels(&out), labels(&m));
    assert_eq!(imms(&out), imms(&m));
    assert_eq!(out.text, "lda 128\nadd 255\nsta 129\nhlt\n3\n0");
}

#[test]
fn empty_pipeline_hands_back_its_input() {
    let p: Pipeline<Pass> = Pipeline::default();
    let out = p.run(source()).unwrap();
    assert_eq!(out.text, SOURCE);
}

#[test]
fn steps_run_in_order_and_stop_at_the_first_error() {
    let calls = Rc::new(Cell::new(0));
    let mut p: Pipeline<Box<dyn Fn(i32) -> Result<i32, std::io::Error>>> = Pipeline::new();
    p.add(Box::new(|x| Ok(x * 10)));
    p.add(Box::new(|x| Ok(x + 3)));
    assert_eq!(p.run(4).unwrap(), 43);
    let c = calls.clone();
    p.add(Box::new(|x| {
        if x > 40 {
            Err(std::io::Error::new(std::io::ErrorKind::Other, "too large"))
        } else {
            Ok(x)
        }
    }));
    p.add(Box::new(move |x| {
        c.set(c.get() + 1);
        Ok(x - 1)
    }));
    let e = p.run(4).unwrap_err();
    assert_eq!(e.to_string(), "too large");
    assert_eq!(calls.get(), 0);
    assert_eq!(p.run(1).unwrap(), 12);
    assert_eq!(calls.get(), 1);
}
