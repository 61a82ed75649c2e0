use quentin::ast::{DataType, Value};
use quentin::codec::{emit_bytecode, load_bytecode, CodecError};
use quentin::ir::{Instruction, LogType, Program, Symbol, SymbolKind};
use quentin::BYTECODE_VERSION;

fn s(x: &str) -> String {
    x.to_string()
}

fn sample_program() -> Program {
    Program {
        instructions: vec![
            Instruction::InitVar { symbol_id: 0, value: Value::Str(s("héllo, wörld")) },
            Instruction::SetVar { symbol_id: 1, value: Value::Number(s("3.25")) },
            Instruction::SetVarFromStack { symbol_id: 2 },
            Instruction::DeclareFunc {
                symbol_id: 3,
                param_count: 2,
                param_symbol_ids: vec![4, 5],
                body_start: 0,
                body_end: 3,
            },
            Instruction::CallFunc { symbol_id: 3, arg_count: 2 },
            Instruction::LoadValue { value: Value::Bool(true) },
            Instruction::LoadVar { symbol_id: 0 },
            Instruction::Concat,
            Instruction::Log { log_type: LogType::Warn, message_expr_start: 5, message_expr_end: 8 },
            Instruction::Return,
        ],
        string_table: vec![s("reserved"), s("")],
        symbol_table: vec![
            Symbol {
                id: 0,
                name: s("greeting"),
                kind: SymbolKind::Variable { data_type: DataType::Str },
            },
            Symbol {
                id: 3,
                name: s("emit"),
                kind: SymbolKind::Function {
                    param_types: vec![DataType::Number, DataType::Bool],
                    return_type: None,
                },
            },
        ],
    }
}

#[test]
fn round_trip_preserves_content() {
    let program = sample_program();
    let bytes = emit_bytecode(&program);
    let loaded = load_bytecode(&bytes).expect("round trip must load");
    assert_eq!(loaded, program);
}

#[test]
fn round_trip_of_empty_program() {
    let program = Program {
        instructions: Vec::new(),
        string_table: Vec::new(),
        symbol_table: Vec::new(),
    };
    let bytes = emit_bytecode(&program);
    // Version tag plus three empty 64-bit counts.
    assert_eq!(bytes.len(), 4 + 8 + 8 + 8);
    let loaded = load_bytecode(&bytes).expect("empty program must load");
    assert_eq!(loaded, program);
}

#[test]
fn version_tag_leads_the_artifact() {
    let bytes = emit_bytecode(&sample_program());
    assert_eq!(&bytes[0..4], &[BYTECODE_VERSION as u8, 0, 0, 0]);
}

#[test]
fn version_gate_wins_over_well_formed_payload() {
    // A payload whose body is perfectly well formed but whose tag names
    // another version always fails with the version-mismatch kind.
    let mut bytes = emit_bytecode(&sample_program());
    bytes[0] = bytes[0].wrapping_add(1);
    match load_bytecode(&bytes) {
        Err(CodecError::VersionMismatch { expected, found }) => {
            assert_eq!(expected, BYTECODE_VERSION);
            assert_eq!(found, BYTECODE_VERSION + 1);
        }
        other => panic!("expected a version mismatch, got {:?}", other),
    }
}

#[test]
fn version_gate_wins_over_damaged_payload() {
    let mut bytes = emit_bytecode(&sample_program());
    bytes[0] = bytes[0].wrapping_add(1);
    bytes.truncate(6);
    match load_bytecode(&bytes) {
        Err(CodecError::VersionMismatch { .. }) => {}
        other => panic!("expected a version mismatch, got {:?}", other),
    }
}

#[test]
fn truncated_payload_is_malformed() {
    let mut bytes = emit_bytecode(&sample_program());
    bytes.truncate(bytes.len() - 1);
    assert_eq!(load_bytecode(&bytes), Err(CodecError::Malformed));
}

#[test]
fn trailing_bytes_are_malformed() {
    let mut bytes = emit_bytecode(&sample_program());
    bytes.push(0);
    assert_eq!(load_bytecode(&bytes), Err(CodecError::Malformed));
}

#[test]
fn empty_input_is_malformed() {
    assert_eq!(load_bytecode(&[]), Err(CodecError::Malformed));
}

#[test]
fn invalid_utf8_in_a_string_is_malformed() {
    let program = Program {
        instructions: vec![Instruction::LoadValue { value: Value::Str(s("ab")) }],
        string_table: Vec::new(),
        symbol_table: Vec::new(),
    };
    let mut bytes = emit_bytecode(&program);
    // The last two bytes are the text "ab"; 0xff is never valid UTF-8.
    let n = bytes.len();
    bytes[n - 2] = 0xff;
    assert_eq!(load_bytecode(&bytes), Err(CodecError::Malformed));
}

#[test]
fn unknown_instruction_tag_is_malformed() {
    let program = Program {
        instructions: vec![Instruction::Return],
        string_table: Vec::new(),
        symbol_table: Vec::new(),
    };
    let mut bytes = emit_bytecode(&program);
    // The byte after the instruction count is the first instruction's tag.
    bytes[4 + 8] = 0xee;
    assert_eq!(load_bytecode(&bytes), Err(CodecError::Malformed));
}
