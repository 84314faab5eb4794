use lib::encoder::{Instruction, Mnemonic};
use lib::metadata::labelinfo::immediatetrick::ImmediateAddressing;
use lib::metadata::memlayout::{NeanderMem, SIM_MEM_SIZE};

#[test]
fn new_images() {
    let m = NeanderMem::new(true);
    assert_eq!(m.arr, vec![0u8; 512]);
    assert_eq!(m.mem_size, SIM_MEM_SIZE);
    assert_eq!((m.code_seg_byte, m.data_seg_byte), (0, 0));
    assert!(m.target_sim);
    assert_eq!(m.full_size(), 512);
    assert_eq!(m.code_seg(), 0);
    assert_eq!(m.data_seg(), 128);
    let p = NeanderMem::new(false);
    assert_eq!(p.arr.len(), 256);
    assert_eq!(p.full_size(), 256);
    let d = NeanderMem::default();
    assert!(d.target_sim);
    assert_eq!(d.arr.len(), 512);
}

#[test]
fn write_instructions_with_padding() {
    let mut m = NeanderMem::new(true);
    m.write_instruction(Instruction { mnemonic: Mnemonic::Lda, destination: None, source: None, addr: Some(128) });
    m.write_instruction(Instruction { mnemonic: Mnemonic::Hlt, destination: None, source: None, addr: None });
    assert_eq!(&m.arr[0..8], &[0x20, 0, 128, 0, 0xf0, 0, 0, 0]);
    assert_eq!(m.code_seg_byte, 6);
    assert_eq!(m.data_seg_byte, 0);
}

#[test]
fn write_instructions_plain() {
    let mut m = NeanderMem::new(false);
    m.write_instruction(Instruction { mnemonic: Mnemonic::Add, destination: Some(2), source: Some(1), addr: None });
    m.write_instruction(Instruction { mnemonic: Mnemonic::Sta, destination: Some(1), source: None, addr: Some(200) });
    assert_eq!(&m.arr[0..4], &[0x30 + 8 + 1, 0x10 + 4, 200, 0]);
    assert_eq!(m.code_seg_byte, 3);
}

#[test]
fn fits_checks() {
    let mut m = NeanderMem::new(false);
    let big = Instruction { mnemonic: Mnemonic::Mul, destination: Some(9), source: None, addr: None };
    assert!(!m.fits_instruction(&big));
    let ok = Instruction { mnemonic: Mnemonic::Mul, destination: Some(3), source: Some(3), addr: None };
    assert!(m.fits_instruction(&ok));
    m.code_seg_byte = 255;
    let two = Instruction { mnemonic: Mnemonic::Lda, destination: None, source: None, addr: Some(1) };
    assert!(!m.fits_instruction(&two));
    assert!(m.fits_data());
    m.data_seg_byte = 128;
    assert!(!m.fits_data());
}

#[test]
fn write_data_from_the_middle() {
    let mut m = NeanderMem::new(true);
    m.write_data(7);
    m.write_data(9);
    assert_eq!(&m.arr[256..261], &[7, 0, 9, 0, 0]);
    assert_eq!(m.data_seg_byte, 4);
    let mut p = NeanderMem::new(false);
    p.write_data(7);
    p.write_data(9);
    assert_eq!(&p.arr[128..131], &[7, 9, 0]);
    assert_eq!(p.data_seg_byte, 2);
}

#[test]
fn reverse_data_lands_at_addresses() {
    let mut m = NeanderMem::new(true);
    m.write_reverse_data(vec![
        ImmediateAddressing { value: 5, addr: 255 },
        ImmediateAddressing { value: 6, addr: 254 },
    ]);
    assert_eq!(m.arr[510], 5);
    assert_eq!(m.arr[508], 6);
    assert_eq!(m.arr.iter().filter(|b| **b != 0).count(), 2);
    let mut p = NeanderMem::new(false);
    p.write_reverse_data(vec![ImmediateAddressing { value: 1, addr: 3 }, ImmediateAddressing { value: 2, addr: 3 }]);
    assert_eq!(p.arr[3], 2);
}

#[test]
fn output_bytes_have_header_for_simulator() {
    let m = NeanderMem::new(true);
    let out = m.to_output_bytes();
    assert_eq!(out.len(), 516);
    assert_eq!(&out[0..4], &[0x03, 0x4e, 0x44, 0x52]);
    let p = NeanderMem::new(false);
    assert_eq!(p.to_output_bytes().len(), 256);
}

#[test]
fn data_writes_fill_from_the_middle_in_order() {
    for &sim in &[true, false] {
        let stride: usize = if sim { 2 } else { 1 };
        let mut m = NeanderMem::new(sim);
        let ds: Vec<u8> = (0..128u32).map(|i| (i * 3 + 1) as u8).collect();
        for &d in &ds {
            assert!(m.fits_data());
            m.write_data(d);
        }
        assert!(!m.fits_data());
        assert_eq!(m.data_seg_byte, 128 * stride);
        assert_eq!(m.code_seg_byte, 0);
        assert_eq!(m.arr.len(), SIM_MEM_SIZE * stride);
        for p in 0..m.arr.len() {
            let expected = if p >= 128 * stride && (p - 128 * stride) % stride == 0 {
                ds[(p - 128 * stride) / stride]
            } else {
                0
            };
            assert_eq!(m.arr[p], expected);
        }
    }
}
