use lib::encoder::{Instruction, Mnemonic};
use lib::token::Token;

#[test]
fn mnemonics_from_text() {
    assert_eq!(Mnemonic::from_text("nop"), Mnemonic::Nop);
    assert_eq!(Mnemonic::from_text("sta"), Mnemonic::Sta);
    assert_eq!(Mnemonic::from_text("sr"), Mnemonic::Sta);
    assert_eq!(Mnemonic::from_text("lda"), Mnemonic::Lda);
    assert_eq!(Mnemonic::from_text("lr"), Mnemonic::Lda);
    assert_eq!(Mnemonic::from_text("add"), Mnemonic::Add);
    assert_eq!(Mnemonic::from_text("or"), Mnemonic::Or);
    assert_eq!(Mnemonic::from_text("and"), Mnemonic::And);
    assert_eq!(Mnemonic::from_text("not"), Mnemonic::Not);
    assert_eq!(Mnemonic::from_text("jmp"), Mnemonic::Jmp);
    assert_eq!(Mnemonic::from_text("jn"), Mnemonic::Jn);
    assert_eq!(Mnemonic::from_text("jz"), Mnemonic::Jz);
    assert_eq!(Mnemonic::from_text("hlt"), Mnemonic::Hlt);
    assert_eq!(Mnemonic::from_text("xor"), Mnemonic::Xor);
    assert_eq!(Mnemonic::from_text("neg"), Mnemonic::Neg);
    assert_eq!(Mnemonic::from_text("sub"), Mnemonic::Sub);
    assert_eq!(Mnemonic::from_text("mul"), Mnemonic::Mul);
    assert_eq!(Mnemonic::from_text("LDA"), Mnemonic::Nop);
    assert_eq!(Mnemonic::from_text("what"), Mnemonic::Nop);
    assert_eq!(Mnemonic::from_text(""), Mnemonic::Nop);
}

#[test]
fn opcodes() {
    let all = [
        (Mnemonic::Nop, 0x00u8),
        (Mnemonic::Sta, 0x10),
        (Mnemonic::Lda, 0x20),
        (Mnemonic::Add, 0x30),
        (Mnemonic::Or, 0x40),
        (Mnemonic::And, 0x50),
        (Mnemonic::Not, 0x60),
        (Mnemonic::Xor, 0x70),
        (Mnemonic::Jmp, 0x80),
        (Mnemonic::Jn, 0x90),
        (Mnemonic::Jz, 0xa0),
        (Mnemonic::Neg, 0xc0),
        (Mnemonic::Sub, 0xd0),
        (Mnemonic::Mul, 0xe0),
        (Mnemonic::Hlt, 0xf0),
    ];
    for (m, b) in all.iter() {
        assert_eq!(m.to_opcode(), *b);
    }
    for (i, (a, _)) in all.iter().enumerate() {
        for (j, (b, _)) in all.iter().enumerate() {
            assert_eq!(i == j, a.to_opcode() == b.to_opcode());
        }
    }
}

#[test]
fn tokens() {
    assert_eq!(Token::from_text("nop"), Token::Nop);
    assert_eq!(Token::from_text("sta"), Token::Sta);
    assert_eq!(Token::from_text("lda"), Token::Lda);
    assert_eq!(Token::from_text("sr"), Token::Nop);
    assert_eq!(Token::from_text("hlt"), Token::Hlt);
    assert_eq!(Token::Nop.to_opcode(), 0x00);
    assert_eq!(Token::Sta.to_opcode(), 0x10);
    assert_eq!(Token::Lda.to_opcode(), 0x20);
    assert_eq!(Token::Add.to_opcode(), 0x30);
    assert_eq!(Token::Jz.to_opcode(), 0xa0);
    assert_eq!(Token::Hlt.to_opcode(), 0xf0);
    let pairs = [
        (Token::Nop, Mnemonic::Nop),
        (Token::Sta, Mnemonic::Sta),
        (Token::Lda, Mnemonic::Lda),
        (Token::Add, Mnemonic::Add),
        (Token::Or, Mnemonic::Or),
        (Token::And, Mnemonic::And),
        (Token::Not, Mnemonic::Not),
        (Token::Jmp, Mnemonic::Jmp),
        (Token::Jn, Mnemonic::Jn),
        (Token::Jz, Mnemonic::Jz),
        (Token::Hlt, Mnemonic::Hlt),
    ];
    for (t, m) in pairs.iter() {
        assert_eq!(t.to_opcode(), m.to_opcode());
    }
    for (a, _) in pairs.iter() {
        for (b, _) in pairs.iter() {
            assert_eq!(a == b, a.to_opcode() == b.to_opcode());
        }
    }
}

#[test]
fn decode_base_lines() {
    let i = Instruction::from_line("lda 128", false);
    assert_eq!(i.mnemonic, Mnemonic::Lda);
    assert_eq!((i.destination, i.source, i.addr), (None, None, Some(128)));
    let i = Instruction::from_line("hlt", false);
    assert_eq!(i.mnemonic, Mnemonic::Hlt);
    assert_eq!((i.destination, i.source, i.addr), (None, None, None));
    let i = Instruction::from_line("jmp 300", false);
    assert_eq!(i.addr, None);
    let i = Instruction::from_line("add x", false);
    assert_eq!(i.addr, None);
}

#[test]
fn decode_extended_lines() {
    let i = Instruction::from_line("lda r2 131", true);
    assert_eq!(i.mnemonic, Mnemonic::Lda);
    assert_eq!((i.destination, i.source, i.addr), (Some(2), None, Some(131)));
    let i = Instruction::from_line("jz 7", true);
    assert_eq!((i.destination, i.source, i.addr), (None, None, Some(7)));
    let i = Instruction::from_line("not r3", true);
    assert_eq!((i.destination, i.source, i.addr), (Some(3), None, None));
    let i = Instruction::from_line("add r1 r2", true);
    assert_eq!((i.destination, i.source, i.addr), (Some(1), Some(2), None));
    let i = Instruction::from_line("add", true);
    assert_eq!((i.destination, i.source, i.addr), (None, None, None));
}
