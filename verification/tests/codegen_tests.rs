use lozenge::codegen::{CodeGen, GenError};
use lozenge::ir::{IR, Line};

fn plain(inst: IR) -> Line {
    Line::new(None, inst)
}

fn labeled(name: &str, inst: IR) -> Line {
    Line::new(Some(name.to_string()), inst)
}

fn generate(mut lines: Vec<Line>) -> Result<Vec<u32>, GenError> {
    let mut cg = CodeGen::new();
    match cg.gen(&mut lines) {
        Ok(()) => Ok(cg.output),
        Err(e) => {
            assert!(cg.output.is_empty(), "a rejected input must produce no output");
            Err(e)
        },
    }
}

#[test]
fn operand_free_instructions_encode_to_their_tags() {
    let words = generate(vec![
        plain(IR::WRITE),
        plain(IR::ADD),
        plain(IR::SUB),
        plain(IR::DIV),
        plain(IR::MUL),
        plain(IR::ODD),
        plain(IR::LT),
        plain(IR::LTE),
        plain(IR::GT),
        plain(IR::GTE),
        plain(IR::EQ),
        plain(IR::NEQ),
        plain(IR::NOOP),
        plain(IR::HALT),
    ])
    .unwrap();
    assert_eq!(
        words,
        vec![
            0x7000_0000,
            0x8000_0000,
            0x9000_0000,
            0xA000_0000,
            0xB000_0000,
            0xC000_0000,
            0xD000_0000,
            0xE000_0000,
            0xF000_0000,
            0xF100_0000,
            0xF200_0000,
            0xF300_0000,
            0xF400_0000,
            0xF600_0000,
        ]
    );
}

#[test]
fn loadc_encodes_immediate_in_low_bits() {
    let words = generate(vec![plain(IR::LOADC(5)), plain(IR::HALT)]).unwrap();
    assert_eq!(words[0], 0x4000_0005);
}

#[test]
fn data_reservations_hoist_behind_code_in_order() {
    let words = generate(vec![
        labeled("a", IR::DEC(11)),
        plain(IR::LOADC(1)),
        labeled("b", IR::DEC(22)),
        plain(IR::HALT),
    ])
    .unwrap();
    assert_eq!(words, vec![0x4000_0001, 0xF600_0000, 11, 22]);
}

#[test]
fn data_reservation_word_is_the_raw_value() {
    let words = generate(vec![plain(IR::HALT), labeled("a", IR::DEC(-1))]).unwrap();
    assert_eq!(words, vec![0xF600_0000, 0xFFFF_FFFF]);
}

#[test]
fn function_body_hoists_and_call_targets_its_marker() {
    let words = generate(vec![
        plain(IR::CALL("f".to_string())),
        plain(IR::HALT),
        labeled("f", IR::StartFunc),
        plain(IR::RET),
    ])
    .unwrap();
    // The body stays where it was only because nothing followed it;
    // the call's operand is the marker's final address.
    assert_eq!(words, vec![0x6000_0002, 0xF600_0000, 0xF400_0000, 0xF500_0000]);
    // The function-entry marker and NOOP share one word on purpose.
    assert_eq!(words[2], 0xF400_0000);
}

#[test]
fn function_body_hoists_behind_data() {
    let words = generate(vec![
        labeled("f", IR::StartFunc),
        plain(IR::RET),
        plain(IR::CALL("f".to_string())),
        labeled("x", IR::DEC(9)),
        plain(IR::HALT),
    ])
    .unwrap();
    // Final order: CALL, HALT, DEC, marker, RET.
    assert_eq!(words, vec![0x6000_0003, 0xF600_0000, 9, 0xF400_0000, 0xF500_0000]);
}

#[test]
fn labels_resolve_to_final_addresses() {
    let words = generate(vec![
        plain(IR::LOADC(7)),
        plain(IR::STORE("x".to_string())),
        plain(IR::LOAD("x".to_string())),
        plain(IR::WRITE),
        plain(IR::HALT),
        labeled("x", IR::DEC(0)),
    ])
    .unwrap();
    assert_eq!(
        words,
        vec![0x4000_0007, 0x5000_0005, 0x3000_0005, 0x7000_0000, 0xF600_0000, 0]
    );
}

#[test]
fn jump_labels_resolve_within_code() {
    let words = generate(vec![
        labeled("top", IR::LOADC(1)),
        plain(IR::JMZ("top".to_string())),
        plain(IR::JMP("top".to_string())),
        plain(IR::HALT),
    ])
    .unwrap();
    assert_eq!(words, vec![0x4000_0001, 0x2000_0000, 0x1000_0000, 0xF600_0000]);
}

#[test]
fn undefined_label_rejects_the_input() {
    let r = generate(vec![plain(IR::JMP("nowhere".to_string())), plain(IR::HALT)]);
    assert_eq!(r, Err(GenError::UndefinedLabel));
}

#[test]
fn rejection_keeps_earlier_lines_out_of_the_output() {
    let r = generate(vec![plain(IR::LOADC(1)), plain(IR::JMP("nowhere".to_string()))]);
    assert_eq!(r, Err(GenError::UndefinedLabel));
}

#[test]
fn operand_boundary_is_exactly_twenty_four_bits() {
    let words = generate(vec![plain(IR::LOADC(0x00FF_FFFF)), plain(IR::HALT)]).unwrap();
    assert_eq!(words[0], 0x40FF_FFFF);
    let over = generate(vec![plain(IR::LOADC(0x0100_0000)), plain(IR::HALT)]);
    assert_eq!(over, Err(GenError::OperandOutOfRange));
}

#[test]
fn negative_immediate_is_rejected() {
    let r = generate(vec![plain(IR::LOADC(-1)), plain(IR::HALT)]);
    assert_eq!(r, Err(GenError::OperandOutOfRange));
}

#[test]
fn gen_reorders_its_input_in_place() {
    let mut lines = vec![
        labeled("x", IR::DEC(3)),
        plain(IR::LOADC(1)),
        plain(IR::HALT),
    ];
    let mut cg = CodeGen::new();
    cg.gen(&mut lines).unwrap();
    assert!(matches!(lines[0].inst, IR::LOADC(1)));
    assert!(matches!(lines[1].inst, IR::HALT));
    assert!(matches!(lines[2].inst, IR::DEC(3)));
}

#[test]
fn generating_twice_appends_to_the_output() {
    let mut cg = CodeGen::new();
    let mut first = vec![plain(IR::HALT)];
    let mut second = vec![plain(IR::WRITE)];
    cg.gen(&mut first).unwrap();
    cg.gen(&mut second).unwrap();
    assert_eq!(cg.output, vec![0xF600_0000, 0x7000_0000]);
}
