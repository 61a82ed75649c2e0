//! The bytecode codec: the durable binary representation of a [`Program`].
//!
//! The artifact is a fixed-width little-endian version tag followed by the
//! serialized program. Loading checks the tag against the compiled-in
//! [`crate::BYTECODE_VERSION`] before it reads anything else: any drift is a
//! version mismatch, a kind of failure distinct from a malformed payload, so
//! a caller can tell "wrong compiler version" from "damaged file".
//!
//! The byte layout is this codec's own: integers little-endian, sequences
//! as a 64-bit count followed by their items, text as a 64-bit byte count
//! followed by UTF-8 bytes, tagged unions as one tag byte followed by the
//! fields of the chosen variant. `spec_emit` and `spec_load` define the two
//! directions in full, and `lemma_emit_load_round_trip` proves that loading
//! undoes emitting for every well-formed program — the codec performs no
//! semantic transformation.

use vstd::prelude::*;

use crate::ast::{DataType, Value, ValueView};
use crate::ir::{
    instrs_view, symbols_view, Instruction, InstructionView, LogType, Program, ProgramView,
    Symbol, SymbolKind, SymbolKindView,
};
use crate::BYTECODE_VERSION;
use vstd::utf8::{decode_utf8, encode_utf8, valid_utf8};

verus! {

/// Why a load failed: the payload carried another bytecode version, or it
/// could not be decoded at all.
#[derive(Debug, Clone, Copy, PartialEq, Eq, Structural)]
pub enum CodecError {
    /// The version tag differs from the compiled-in bytecode version; both
    /// sides are carried so the caller can report them.
    VersionMismatch { expected: u32, found: u32 },
    /// The payload is not a well-formed artifact.
    Malformed,
}

// ---------------------------------------------------------------------------
// Encoding, in specification form.
// ---------------------------------------------------------------------------

/// A 32-bit integer as four little-endian bytes.
pub open spec fn enc_u32(v: u32) -> Seq<u8> {
    seq![
        (v & 0xff) as u8,
        ((v >> 8) & 0xff) as u8,
        ((v >> 16) & 0xff) as u8,
        ((v >> 24) & 0xff) as u8,
    ]
}

/// A 64-bit integer as eight little-endian bytes.
pub open spec fn enc_u64(v: u64) -> Seq<u8> {
    seq![
        (v & 0xff) as u8,
        ((v >> 8) & 0xff) as u8,
        ((v >> 16) & 0xff) as u8,
        ((v >> 24) & 0xff) as u8,
        ((v >> 32) & 0xff) as u8,
        ((v >> 40) & 0xff) as u8,
        ((v >> 48) & 0xff) as u8,
        ((v >> 56) & 0xff) as u8,
    ]
}

/// Text: its UTF-8 byte count as a 64-bit integer, then those bytes.
pub open spec fn enc_string(s: Seq<char>) -> Seq<u8> {
    enc_u64(encode_utf8(s).len() as u64) + encode_utf8(s)
}

/// A declared type as one tag byte.
pub open spec fn enc_datatype(d: DataType) -> Seq<u8> {
    match d {
        DataType::Str => seq![0u8],
        DataType::Number => seq![1u8],
        DataType::Bool => seq![2u8],
    }
}

/// An optional declared type: absence tag, or presence tag then the type.
pub open spec fn enc_opt_datatype(d: Option<DataType>) -> Seq<u8> {
    match d {
        None => seq![0u8],
        Some(dt) => seq![1u8] + enc_datatype(dt),
    }
}

/// A log level as one tag byte.
pub open spec fn enc_logtype(t: LogType) -> Seq<u8> {
    match t {
        LogType::Info => seq![0u8],
        LogType::Warn => seq![1u8],
        LogType::Error => seq![2u8],
    }
}

/// A value as one tag byte and the variant's payload.
pub open spec fn enc_value(v: ValueView) -> Seq<u8> {
    match v {
        ValueView::Str(s) => seq![0u8] + enc_string(s),
        ValueView::Number(t) => seq![1u8] + enc_string(t),
        ValueView::Bool(b) => seq![2u8, if b { 1u8 } else { 0u8 }],
        ValueView::Null => seq![3u8],
    }
}

/// The items of a sequence, one after the other, each through `f`.
pub open spec fn enc_each<T>(s: Seq<T>, f: spec_fn(T) -> Seq<u8>) -> Seq<u8>
    decreases s.len(),
{
    if s.len() == 0 {
        Seq::empty()
    } else {
        f(s[0]) + enc_each(s.drop_first(), f)
    }
}

/// A sequence: its item count as a 64-bit integer, then its items.
pub open spec fn enc_vec<T>(s: Seq<T>, f: spec_fn(T) -> Seq<u8>) -> Seq<u8> {
    enc_u64(s.len() as u64) + enc_each(s, f)
}

/// An instruction as one tag byte and the variant's fields.
pub open spec fn enc_instr(i: InstructionView) -> Seq<u8> {
    match i {
        InstructionView::InitVar { symbol_id, value } => seq![0u8] + enc_u32(symbol_id)
            + enc_value(value),
        InstructionView::SetVar { symbol_id, value } => seq![1u8] + enc_u32(symbol_id)
            + enc_value(value),
        InstructionView::SetVarFromStack { symbol_id } => seq![2u8] + enc_u32(symbol_id),
        InstructionView::DeclareFunc {
            symbol_id,
            param_count,
            param_symbol_ids,
            body_start,
            body_end,
        } => seq![3u8] + enc_u32(symbol_id) + enc_u32(param_count) + enc_vec(
            param_symbol_ids,
            |id: u32| enc_u32(id),
        ) + enc_u32(body_start) + enc_u32(body_end),
        InstructionView::CallFunc { symbol_id, arg_count } => seq![4u8] + enc_u32(symbol_id)
            + enc_u32(arg_count),
        InstructionView::LoadValue { value } => seq![5u8] + enc_value(value),
        InstructionView::LoadVar { symbol_id } => seq![6u8] + enc_u32(symbol_id),
        InstructionView::Concat => seq![7u8],
        InstructionView::Log { log_type, message_expr_start, message_expr_end } => seq![8u8]
            + enc_logtype(log_type) + enc_u32(message_expr_start) + enc_u32(message_expr_end),
        InstructionView::Return => seq![9u8],
    }
}

/// What a symbol names, as one tag byte and the variant's fields.
pub open spec fn enc_symbolkind(k: SymbolKindView) -> Seq<u8> {
    match k {
        SymbolKindView::Variable { data_type } => seq![0u8] + enc_datatype(data_type),
        SymbolKindView::Function { param_types, return_type } => seq![1u8] + enc_vec(
            param_types,
            |d: DataType| enc_datatype(d),
        ) + enc_opt_datatype(return_type),
    }
}

/// A symbol-table entry: id, name, kind.
pub open spec fn enc_symbol(s: crate::ir::SymbolView) -> Seq<u8> {
    enc_u32(s.id) + enc_string(s.name) + enc_symbolkind(s.kind)
}

/// A program without its version framing: instructions, string table,
/// symbol table, each as a counted sequence.
pub open spec fn enc_program(p: ProgramView) -> Seq<u8> {
    enc_vec(p.instructions, |i: InstructionView| enc_instr(i)) + enc_vec(
        p.string_table,
        |s: Seq<char>| enc_string(s),
    ) + enc_vec(p.symbol_table, |s: crate::ir::SymbolView| enc_symbol(s))
}

/// The whole artifact: the version tag, then the program.
pub open spec fn spec_emit(p: ProgramView) -> Seq<u8> {
    enc_u32(BYTECODE_VERSION) + enc_program(p)
}

// ---------------------------------------------------------------------------
// Decoding, in specification form: each parser consumes a prefix of the
// remaining bytes and hands back the rest, or nothing if the bytes do not
// start with a valid encoding.
// ---------------------------------------------------------------------------

/// One byte.
pub open spec fn parse_u8(b: Seq<u8>) -> Option<(u8, Seq<u8>)> {
    if b.len() >= 1 {
        Some((b[0], b.skip(1)))
    } else {
        None
    }
}

/// The 32-bit integer four little-endian bytes hold.
pub open spec fn u32_of_le(b0: u8, b1: u8, b2: u8, b3: u8) -> u32 {
    (b0 as u32) | ((b1 as u32) << 8) | ((b2 as u32) << 16) | ((b3 as u32) << 24)
}

/// Four little-endian bytes as a 32-bit integer.
pub open spec fn parse_u32(b: Seq<u8>) -> Option<(u32, Seq<u8>)> {
    if b.len() >= 4 {
        Some((u32_of_le(b[0], b[1], b[2], b[3]), b.skip(4)))
    } else {
        None
    }
}

/// The 64-bit integer eight little-endian bytes hold.
pub open spec fn u64_of_le(
    b0: u8,
    b1: u8,
    b2: u8,
    b3: u8,
    b4: u8,
    b5: u8,
    b6: u8,
    b7: u8,
) -> u64 {
    (b0 as u64) | ((b1 as u64) << 8) | ((b2 as u64) << 16) | ((b3 as u64) << 24) | (
    (b4 as u64) << 32) | ((b5 as u64) << 40) | ((b6 as u64) << 48) | ((b7 as u64) << 56)
}

/// Eight little-endian bytes as a 64-bit integer.
pub open spec fn parse_u64(b: Seq<u8>) -> Option<(u64, Seq<u8>)> {
    if b.len() >= 8 {
        Some((u64_of_le(b[0], b[1], b[2], b[3], b[4], b[5], b[6], b[7]), b.skip(8)))
    } else {
        None
    }
}

/// A counted run of UTF-8 bytes, decoded to text.
pub open spec fn parse_string(b: Seq<u8>) -> Option<(Seq<char>, Seq<u8>)> {
    match parse_u64(b) {
        Some((n, r)) => if r.len() >= n as int && valid_utf8(r.take(n as int)) {
            Some((decode_utf8(r.take(n as int)), r.skip(n as int)))
        } else {
            None
        },
        None => None,
    }
}

/// A declared type from its tag byte.
pub open spec fn parse_datatype(b: Seq<u8>) -> Option<(DataType, Seq<u8>)> {
    match parse_u8(b) {
        Some((t, r)) => if t == 0 {
            Some((DataType::Str, r))
        } else if t == 1 {
            Some((DataType::Number, r))
        } else if t == 2 {
            Some((DataType::Bool, r))
        } else {
            None
        },
        None => None,
    }
}

/// An optional declared type.
pub open spec fn parse_opt_datatype(b: Seq<u8>) -> Option<(Option<DataType>, Seq<u8>)> {
    match parse_u8(b) {
        Some((t, r)) => if t == 0 {
            Some((None, r))
        } else if t == 1 {
            match parse_datatype(r) {
                Some((d, r2)) => Some((Some(d), r2)),
                None => None,
            }
        } else {
            None
        },
        None => None,
    }
}

/// A log level from its tag byte.
pub open spec fn parse_logtype(b: Seq<u8>) -> Option<(LogType, Seq<u8>)> {
    match parse_u8(b) {
        Some((t, r)) => if t == 0 {
            Some((LogType::Info, r))
        } else if t == 1 {
            Some((LogType::Warn, r))
        } else if t == 2 {
            Some((LogType::Error, r))
        } else {
            None
        },
        None => None,
    }
}

/// A value from its tag byte and payload.
pub open spec fn parse_value(b: Seq<u8>) -> Option<(ValueView, Seq<u8>)> {
    match parse_u8(b) {
        Some((t, r)) => if t == 0 {
            match parse_string(r) {
                Some((s, r2)) => Some((ValueView::Str(s), r2)),
                None => None,
            }
        } else if t == 1 {
            match parse_string(r) {
                Some((s, r2)) => Some((ValueView::Number(s), r2)),
                None => None,
            }
        } else if t == 2 {
            match parse_u8(r) {
                Some((x, r2)) => if x == 0 {
                    Some((ValueView::Bool(false), r2))
                } else if x == 1 {
                    Some((ValueView::Bool(true), r2))
                } else {
                    None
                },
                None => None,
            }
        } else if t == 3 {
            Some((ValueView::Null, r))
        } else {
            None
        },
        None => None,
    }
}

/// Exactly `n` items, each through `f`.
pub open spec fn parse_n<T>(
    b: Seq<u8>,
    n: int,
    f: spec_fn(Seq<u8>) -> Option<(T, Seq<u8>)>,
) -> Option<(Seq<T>, Seq<u8>)>
    decreases n,
{
    if n <= 0 {
        Some((Seq::empty(), b))
    } else {
        match f(b) {
            Some((v, r)) => match parse_n(r, n - 1, f) {
                Some((vs, r2)) => Some((seq![v] + vs, r2)),
                None => None,
            },
            None => None,
        }
    }
}

/// A counted sequence of items.
pub open spec fn parse_vec<T>(
    b: Seq<u8>,
    f: spec_fn(Seq<u8>) -> Option<(T, Seq<u8>)>,
) -> Option<(Seq<T>, Seq<u8>)> {
    match parse_u64(b) {
        Some((n, r)) => parse_n(r, n as int, f),
        None => None,
    }
}

/// An instruction from its tag byte and fields.
pub open spec fn parse_instr(b: Seq<u8>) -> Option<(InstructionView, Seq<u8>)> {
    match parse_u8(b) {
        Some((t, r)) => if t == 0 || t == 1 {
            match parse_u32(r) {
                Some((id, r2)) => match parse_value(r2) {
                    Some((v, r3)) => if t == 0 {
                        Some((InstructionView::InitVar { symbol_id: id, value: v }, r3))
                    } else {
                        Some((InstructionView::SetVar { symbol_id: id, value: v }, r3))
                    },
                    None => None,
                },
                None => None,
            }
        } else if t == 2 {
            match parse_u32(r) {
                Some((id, r2)) => Some((InstructionView::SetVarFromStack { symbol_id: id }, r2)),
                None => None,
            }
        } else if t == 3 {
            match parse_u32(r) {
                Some((id, r2)) => match parse_u32(r2) {
                    Some((pc, r3)) => match parse_vec(r3, |bb: Seq<u8>| parse_u32(bb)) {
                        Some((ids, r4)) => match parse_u32(r4) {
                            Some((bs, r5)) => match parse_u32(r5) {
                                Some((be, r6)) => Some((
                                    InstructionView::DeclareFunc {
                                        symbol_id: id,
                                        param_count: pc,
                                        param_symbol_ids: ids,
                                        body_start: bs,
                                        body_end: be,
                                    },
                                    r6,
                                )),
                                None => None,
                            },
                            None => None,
                        },
                        None => None,
                    },
                    None => None,
                },
                None => None,
            }
        } else if t == 4 {
            match parse_u32(r) {
                Some((id, r2)) => match parse_u32(r2) {
                    Some((ac, r3)) => Some((
                        InstructionView::CallFunc { symbol_id: id, arg_count: ac },
                        r3,
                    )),
                    None => None,
                },
                None => None,
            }
        } else if t == 5 {
            match parse_value(r) {
                Some((v, r2)) => Some((InstructionView::LoadValue { value: v }, r2)),
                None => None,
            }
        } else if t == 6 {
            match parse_u32(r) {
                Some((id, r2)) => Some((InstructionView::LoadVar { symbol_id: id }, r2)),
                None => None,
            }
        } else if t == 7 {
            Some((InstructionView::Concat, r))
        } else if t == 8 {
            match parse_logtype(r) {
                Some((lt, r2)) => match parse_u32(r2) {
                    Some((ms, r3)) => match parse_u32(r3) {
                        Some((me, r4)) => Some((
                            InstructionView::Log {
                                log_type: lt,
                                message_expr_start: ms,
                                message_expr_end: me,
                            },
                            r4,
                        )),
                        None => None,
                    },
                    None => None,
                },
                None => None,
            }
        } else if t == 9 {
            Some((InstructionView::Return, r))
        } else {
            None
        },
        None => None,
    }
}

/// What a symbol names, from its tag byte and fields.
pub open spec fn parse_symbolkind(b: Seq<u8>) -> Option<(SymbolKindView, Seq<u8>)> {
    match parse_u8(b) {
        Some((t, r)) => if t == 0 {
            match parse_datatype(r) {
                Some((d, r2)) => Some((SymbolKindView::Variable { data_type: d }, r2)),
                None => None,
            }
        } else if t == 1 {
            match parse_vec(r, |bb: Seq<u8>| parse_datatype(bb)) {
                Some((ds, r2)) => match parse_opt_datatype(r2) {
                    Some((rt, r3)) => Some((
                        SymbolKindView::Function { param_types: ds, return_type: rt },
                        r3,
                    )),
                    None => None,
                },
                None => None,
            }
        } else {
            None
        },
        None => None,
    }
}

/// A symbol-table entry.
pub open spec fn parse_symbol(b: Seq<u8>) -> Option<(crate::ir::SymbolView, Seq<u8>)> {
    match parse_u32(b) {
        Some((id, r)) => match parse_string(r) {
            Some((name, r2)) => match parse_symbolkind(r2) {
                Some((k, r3)) => Some((crate::ir::SymbolView { id, name, kind: k }, r3)),
                None => None,
            },
            None => None,
        },
        None => None,
    }
}

/// A program without its version framing.
pub open spec fn parse_program(b: Seq<u8>) -> Option<(ProgramView, Seq<u8>)> {
    match parse_vec(b, |bb: Seq<u8>| parse_instr(bb)) {
        Some((instrs, r)) => match parse_vec(r, |bb: Seq<u8>| parse_string(bb)) {
            Some((strs, r2)) => match parse_vec(r2, |bb: Seq<u8>| parse_symbol(bb)) {
                Some((syms, r3)) => Some((
                    ProgramView { instructions: instrs, string_table: strs, symbol_table: syms },
                    r3,
                )),
                None => None,
            },
            None => None,
        },
        None => None,
    }
}

/// What loading an artifact yields: the version tag is read and checked
/// first, so a differing tag is always a version mismatch, whatever follows
/// it; only then is the program decoded, and trailing garbage or a failed
/// decode is a malformed payload.
pub open spec fn spec_load(b: Seq<u8>) -> Result<ProgramView, CodecError> {
    match parse_u32(b) {
        Some((ver, r)) => if ver != BYTECODE_VERSION {
            Err(CodecError::VersionMismatch { expected: BYTECODE_VERSION, found: ver })
        } else {
            match parse_program(r) {
                Some((p, r2)) => if r2.len() == 0 {
                    Ok(p)
                } else {
                    Err(CodecError::Malformed)
                },
                None => Err(CodecError::Malformed),
            }
        },
        None => Err(CodecError::Malformed),
    }
}

// ---------------------------------------------------------------------------
// Round trip: parsing undoes encoding. The only caveats are machine limits:
// a 64-bit count must really fit 64 bits. Every program a machine can hold
// satisfies them.
// ---------------------------------------------------------------------------

/// The text's UTF-8 byte count fits the 64-bit length field.
pub open spec fn str_ok(s: Seq<char>) -> bool {
    encode_utf8(s).len() <= u64::MAX
}

/// The value's text, if any, fits its length field.
pub open spec fn wf_value(v: ValueView) -> bool {
    match v {
        ValueView::Str(s) => str_ok(s),
        ValueView::Number(t) => str_ok(t),
        _ => true,
    }
}

/// The instruction's fields fit their length fields.
pub open spec fn wf_instr(i: InstructionView) -> bool {
    match i {
        InstructionView::InitVar { value, .. } => wf_value(value),
        InstructionView::SetVar { value, .. } => wf_value(value),
        InstructionView::LoadValue { value } => wf_value(value),
        InstructionView::DeclareFunc { param_symbol_ids, .. } => param_symbol_ids.len()
            <= u64::MAX,
        _ => true,
    }
}

/// The symbol's fields fit their length fields.
pub open spec fn wf_symbol(s: crate::ir::SymbolView) -> bool {
    str_ok(s.name) && match s.kind {
        SymbolKindView::Function { param_types, .. } => param_types.len() <= u64::MAX,
        _ => true,
    }
}

/// Every count and text in the program fits its length field; true of any
/// program a machine can hold.
pub open spec fn wf_program(p: ProgramView) -> bool {
    &&& p.instructions.len() <= u64::MAX
    &&& p.string_table.len() <= u64::MAX
    &&& p.symbol_table.len() <= u64::MAX
    &&& forall|i: int| 0 <= i < p.instructions.len() ==> wf_instr(#[trigger] p.instructions[i])
    &&& forall|i: int| 0 <= i < p.string_table.len() ==> str_ok(#[trigger] p.string_table[i])
    &&& forall|i: int| 0 <= i < p.symbol_table.len() ==> wf_symbol(#[trigger] p.symbol_table[i])
}

pub proof fn lemma_parse_u8_enc(v: u8, rest: Seq<u8>)
    ensures
        parse_u8(seq![v] + rest) == Some((v, rest)),
{
    assert((seq![v] + rest).skip(1) =~= rest);
}

pub proof fn lemma_parse_u32_enc(v: u32, rest: Seq<u8>)
    ensures
        parse_u32(enc_u32(v) + rest) == Some((v, rest)),
{
    let b = enc_u32(v) + rest;
    assert(b.skip(4) =~= rest);
    assert(u32_of_le(
        (v & 0xff) as u8,
        ((v >> 8) & 0xff) as u8,
        ((v >> 16) & 0xff) as u8,
        ((v >> 24) & 0xff) as u8,
    ) == v) by (bit_vector);
}

pub proof fn lemma_parse_u64_enc(v: u64, rest: Seq<u8>)
    ensures
        parse_u64(enc_u64(v) + rest) == Some((v, rest)),
{
    let b = enc_u64(v) + rest;
    assert(b.skip(8) =~= rest);
    assert(u64_of_le(
        (v & 0xff) as u8,
        ((v >> 8) & 0xff) as u8,
        ((v >> 16) & 0xff) as u8,
        ((v >> 24) & 0xff) as u8,
        ((v >> 32) & 0xff) as u8,
        ((v >> 40) & 0xff) as u8,
        ((v >> 48) & 0xff) as u8,
        ((v >> 56) & 0xff) as u8,
    ) == v) by (bit_vector);
}

pub proof fn lemma_parse_string_enc(s: Seq<char>, rest: Seq<u8>)
    requires
        str_ok(s),
    ensures
        parse_string(enc_string(s) + rest) == Some((s, rest)),
{
    let bytes = encode_utf8(s);
    let n = bytes.len() as u64;
    assert(enc_string(s) + rest =~= enc_u64(n) + (bytes + rest));
    lemma_parse_u64_enc(n, bytes + rest);
    assert((bytes + rest).take(n as int) =~= bytes);
    assert((bytes + rest).skip(n as int) =~= rest);
    vstd::utf8::encode_utf8_valid_utf8(s);
    vstd::utf8::encode_utf8_decode_utf8(s);
}

pub proof fn lemma_parse_datatype_enc(d: DataType, rest: Seq<u8>)
    ensures
        parse_datatype(enc_datatype(d) + rest) == Some((d, rest)),
{
    match d {
        DataType::Str => lemma_parse_u8_enc(0, rest),
        DataType::Number => lemma_parse_u8_enc(1, rest),
        DataType::Bool => lemma_parse_u8_enc(2, rest),
    }
}

pub proof fn lemma_parse_opt_datatype_enc(d: Option<DataType>, rest: Seq<u8>)
    ensures
        parse_opt_datatype(enc_opt_datatype(d) + rest) == Some((d, rest)),
{
    match d {
        None => lemma_parse_u8_enc(0, rest),
        Some(dt) => {
            assert(enc_opt_datatype(d) + rest =~= seq![1u8] + (enc_datatype(dt) + rest));
            lemma_parse_u8_enc(1, enc_datatype(dt) + rest);
            lemma_parse_datatype_enc(dt, rest);
        },
    }
}

pub proof fn lemma_parse_logtype_enc(t: LogType, rest: Seq<u8>)
    ensures
        parse_logtype(enc_logtype(t) + rest) == Some((t, rest)),
{
    match t {
        LogType::Info => lemma_parse_u8_enc(0, rest),
        LogType::Warn => lemma_parse_u8_enc(1, rest),
        LogType::Error => lemma_parse_u8_enc(2, rest),
    }
}

pub proof fn lemma_parse_value_enc(v: ValueView, rest: Seq<u8>)
    requires
        wf_value(v),
    ensures
        parse_value(enc_value(v) + rest) == Some((v, rest)),
{
    match v {
        ValueView::Str(s) => {
            assert(enc_value(v) + rest =~= seq![0u8] + (enc_string(s) + rest));
            lemma_parse_u8_enc(0, enc_string(s) + rest);
            lemma_parse_string_enc(s, rest);
        },
        ValueView::Number(t) => {
            assert(enc_value(v) + rest =~= seq![1u8] + (enc_string(t) + rest));
            lemma_parse_u8_enc(1, enc_string(t) + rest);
            lemma_parse_string_enc(t, rest);
        },
        ValueView::Bool(b) => {
            let x: u8 = if b { 1 } else { 0 };
            assert(enc_value(v) + rest =~= seq![2u8] + (seq![x] + rest));
            lemma_parse_u8_enc(2, seq![x] + rest);
            lemma_parse_u8_enc(x, rest);
        },
        ValueView::Null => {
            lemma_parse_u8_enc(3, rest);
        },
    }
}

proof fn lemma_parse_n_enc<T>(
    s: Seq<T>,
    rest: Seq<u8>,
    enc: spec_fn(T) -> Seq<u8>,
    par: spec_fn(Seq<u8>) -> Option<(T, Seq<u8>)>,
    wf: spec_fn(T) -> bool,
)
    requires
        forall|i: int| 0 <= i < s.len() ==> wf(#[trigger] s[i]),
        forall|v: T, r: Seq<u8>| wf(v) ==> #[trigger] par(enc(v) + r) == Some((v, r)),
    ensures
        parse_n(enc_each(s, enc) + rest, s.len() as int, par) == Some((s, rest)),
    decreases s.len(),
{
    if s.len() == 0 {
        assert(enc_each(s, enc) + rest =~= rest);
        assert(s =~= Seq::<T>::empty());
    } else {
        let tail = s.drop_first();
        assert(enc_each(s, enc) + rest =~= enc(s[0]) + (enc_each(tail, enc) + rest));
        assert(par(enc(s[0]) + (enc_each(tail, enc) + rest)) == Some((
            s[0],
            enc_each(tail, enc) + rest,
        )));
        assert(forall|i: int| 0 <= i < tail.len() ==> wf(#[trigger] tail[i]));
        lemma_parse_n_enc(tail, rest, enc, par, wf);
        assert(seq![s[0]] + tail =~= s);
    }
}

proof fn lemma_parse_vec_enc<T>(
    s: Seq<T>,
    rest: Seq<u8>,
    enc: spec_fn(T) -> Seq<u8>,
    par: spec_fn(Seq<u8>) -> Option<(T, Seq<u8>)>,
    wf: spec_fn(T) -> bool,
)
    requires
        s.len() <= u64::MAX,
        forall|i: int| 0 <= i < s.len() ==> wf(#[trigger] s[i]),
        forall|v: T, r: Seq<u8>| wf(v) ==> #[trigger] par(enc(v) + r) == Some((v, r)),
    ensures
        parse_vec(enc_vec(s, enc) + rest, par) == Some((s, rest)),
{
    let n = s.len() as u64;
    assert(enc_vec(s, enc) + rest =~= enc_u64(n) + (enc_each(s, enc) + rest));
    lemma_parse_u64_enc(n, enc_each(s, enc) + rest);
    lemma_parse_n_enc(s, rest, enc, par, wf);
}

proof fn lemma_parse_instr_enc_var(t: u8, i: InstructionView, symbol_id: u32, value: ValueView, rest: Seq<u8>)
    requires
        wf_value(value),
        t == 0 ==> i == (InstructionView::InitVar { symbol_id, value }),
        t == 1 ==> i == (InstructionView::SetVar { symbol_id, value }),
        t == 0 || t == 1,
    ensures
        parse_instr(seq![t] + (enc_u32(symbol_id) + (enc_value(value) + rest))) == Some((i, rest)),
{
    let r2 = enc_value(value) + rest;
    let r1 = enc_u32(symbol_id) + r2;
    lemma_parse_u8_enc(t, r1);
    lemma_parse_u32_enc(symbol_id, r2);
    lemma_parse_value_enc(value, rest);
}

proof fn lemma_parse_instr_enc_declare(
    symbol_id: u32,
    param_count: u32,
    ids: Seq<u32>,
    body_start: u32,
    body_end: u32,
    rest: Seq<u8>,
)
    requires
        ids.len() <= u64::MAX,
    ensures
        ({
            let i = InstructionView::DeclareFunc {
                symbol_id,
                param_count,
                param_symbol_ids: ids,
                body_start,
                body_end,
            };
            parse_instr(enc_instr(i) + rest) == Some((i, rest))
        }),
{
    let i = InstructionView::DeclareFunc {
        symbol_id,
        param_count,
        param_symbol_ids: ids,
        body_start,
        body_end,
    };
    let r5 = enc_u32(body_end) + rest;
    let r4 = enc_u32(body_start) + r5;
    let r3 = enc_vec(ids, |id: u32| enc_u32(id)) + r4;
    let r2 = enc_u32(param_count) + r3;
    let r1 = enc_u32(symbol_id) + r2;
    assert(enc_instr(i) + rest =~= seq![3u8] + r1);
    lemma_parse_u8_enc(3, r1);
    lemma_parse_u32_enc(symbol_id, r2);
    lemma_parse_u32_enc(param_count, r3);
    assert(forall|v: u32, r: Seq<u8>| #[trigger] parse_u32(enc_u32(v) + r) == Some((v, r))) by {
        assert forall|v: u32, r: Seq<u8>| #[trigger] parse_u32(enc_u32(v) + r) == Some((v, r)) by {
            lemma_parse_u32_enc(v, r);
        }
    }
    lemma_parse_vec_enc(ids, r4, |id: u32| enc_u32(id), |bb: Seq<u8>| parse_u32(bb), |id: u32| true);
    lemma_parse_u32_enc(body_start, r5);
    lemma_parse_u32_enc(body_end, rest);
}

proof fn lemma_parse_instr_enc_log(lt: LogType, ms: u32, me: u32, rest: Seq<u8>)
    ensures
        ({
            let i = InstructionView::Log {
                log_type: lt,
                message_expr_start: ms,
                message_expr_end: me,
            };
            parse_instr(enc_instr(i) + rest) == Some((i, rest))
        }),
{
    let i = InstructionView::Log { log_type: lt, message_expr_start: ms, message_expr_end: me };
    let r3 = enc_u32(me) + rest;
    let r2 = enc_u32(ms) + r3;
    let r1 = enc_logtype(lt) + r2;
    assert(enc_instr(i) + rest =~= seq![8u8] + r1);
    lemma_parse_u8_enc(8, r1);
    lemma_parse_logtype_enc(lt, r2);
    lemma_parse_u32_enc(ms, r3);
    lemma_parse_u32_enc(me, rest);
}

pub proof fn lemma_parse_instr_enc(i: InstructionView, rest: Seq<u8>)
    requires
        wf_instr(i),
    ensures
        parse_instr(enc_instr(i) + rest) == Some((i, rest)),
{
    match i {
        InstructionView::InitVar { symbol_id, value } => {
            assert(enc_instr(i) + rest =~= seq![0u8] + (enc_u32(symbol_id) + (enc_value(value)
                + rest)));
            lemma_parse_instr_enc_var(0, i, symbol_id, value, rest);
        },
        InstructionView::SetVar { symbol_id, value } => {
            assert(enc_instr(i) + rest =~= seq![1u8] + (enc_u32(symbol_id) + (enc_value(value)
                + rest)));
            lemma_parse_instr_enc_var(1, i, symbol_id, value, rest);
        },
        InstructionView::SetVarFromStack { symbol_id } => {
            let r1 = enc_u32(symbol_id) + rest;
            assert(enc_instr(i) + rest =~= seq![2u8] + r1);
            lemma_parse_u8_enc(2, r1);
            lemma_parse_u32_enc(symbol_id, rest);
        },
        InstructionView::DeclareFunc {
            symbol_id,
            param_count,
            param_symbol_ids,
            body_start,
            body_end,
        } => {
            lemma_parse_instr_enc_declare(
                symbol_id,
                param_count,
                param_symbol_ids,
                body_start,
                body_end,
                rest,
            );
        },
        InstructionView::CallFunc { symbol_id, arg_count } => {
            let r2 = enc_u32(arg_count) + rest;
            let r1 = enc_u32(symbol_id) + r2;
            assert(enc_instr(i) + rest =~= seq![4u8] + r1);
            lemma_parse_u8_enc(4, r1);
            lemma_parse_u32_enc(symbol_id, r2);
            lemma_parse_u32_enc(arg_count, rest);
        },
        InstructionView::LoadValue { value } => {
            let r1 = enc_value(value) + rest;
            assert(enc_instr(i) + rest =~= seq![5u8] + r1);
            lemma_parse_u8_enc(5, r1);
            lemma_parse_value_enc(value, rest);
        },
        InstructionView::LoadVar { symbol_id } => {
            let r1 = enc_u32(symbol_id) + rest;
            assert(enc_instr(i) + rest =~= seq![6u8] + r1);
            lemma_parse_u8_enc(6, r1);
            lemma_parse_u32_enc(symbol_id, rest);
        },
        InstructionView::Concat => {
            lemma_parse_u8_enc(7, rest);
        },
        InstructionView::Log { log_type, message_expr_start, message_expr_end } => {
            lemma_parse_instr_enc_log(log_type, message_expr_start, message_expr_end, rest);
        },
        InstructionView::Return => {
            lemma_parse_u8_enc(9, rest);
        },
    }
}

pub proof fn lemma_parse_symbolkind_enc(k: SymbolKindView, rest: Seq<u8>)
    requires
        k matches SymbolKindView::Function { param_types, .. } ==> param_types.len() <= u64::MAX,
    ensures
        parse_symbolkind(enc_symbolkind(k) + rest) == Some((k, rest)),
{
    match k {
        SymbolKindView::Variable { data_type } => {
            let r1 = enc_datatype(data_type) + rest;
            assert(enc_symbolkind(k) + rest =~= seq![0u8] + r1);
            lemma_parse_u8_enc(0, r1);
            lemma_parse_datatype_enc(data_type, rest);
        },
        SymbolKindView::Function { param_types, return_type } => {
            let r2 = enc_opt_datatype(return_type) + rest;
            let r1 = enc_vec(param_types, |d: DataType| enc_datatype(d)) + r2;
            assert(enc_symbolkind(k) + rest =~= seq![1u8] + r1);
            lemma_parse_u8_enc(1, r1);
            assert(forall|v: DataType, r: Seq<u8>| #[trigger] parse_datatype(enc_datatype(v) + r)
                == Some((v, r))) by {
                assert forall|v: DataType, r: Seq<u8>|
                    #[trigger] parse_datatype(enc_datatype(v) + r) == Some((v, r)) by {
                    lemma_parse_datatype_enc(v, r);
                }
            }
            lemma_parse_vec_enc(
                param_types,
                r2,
                |d: DataType| enc_datatype(d),
                |bb: Seq<u8>| parse_datatype(bb),
                |d: DataType| true,
            );
            lemma_parse_opt_datatype_enc(return_type, rest);
        },
    }
}

pub proof fn lemma_parse_symbol_enc(s: crate::ir::SymbolView, rest: Seq<u8>)
    requires
        wf_symbol(s),
    ensures
        parse_symbol(enc_symbol(s) + rest) == Some((s, rest)),
{
    let r2 = enc_symbolkind(s.kind) + rest;
    let r1 = enc_string(s.name) + r2;
    assert(enc_symbol(s) + rest =~= enc_u32(s.id) + r1);
    lemma_parse_u32_enc(s.id, r1);
    lemma_parse_string_enc(s.name, r2);
    lemma_parse_symbolkind_enc(s.kind, rest);
    assert((crate::ir::SymbolView { id: s.id, name: s.name, kind: s.kind }) =~= s);
}

pub proof fn lemma_parse_program_enc(p: ProgramView, rest: Seq<u8>)
    requires
        wf_program(p),
    ensures
        parse_program(enc_program(p) + rest) == Some((p, rest)),
{
    let r2 = enc_vec(p.symbol_table, |s: crate::ir::SymbolView| enc_symbol(s)) + rest;
    let r1 = enc_vec(p.string_table, |s: Seq<char>| enc_string(s)) + r2;
    assert(enc_program(p) + rest =~= enc_vec(p.instructions, |i: InstructionView| enc_instr(i))
        + r1);
    assert(forall|v: InstructionView, r: Seq<u8>| wf_instr(v) ==> #[trigger] parse_instr(
        enc_instr(v) + r,
    ) == Some((v, r))) by {
        assert forall|v: InstructionView, r: Seq<u8>| wf_instr(v) implies #[trigger] parse_instr(
            enc_instr(v) + r,
        ) == Some((v, r)) by {
            lemma_parse_instr_enc(v, r);
        }
    }
    lemma_parse_vec_enc(
        p.instructions,
        r1,
        |i: InstructionView| enc_instr(i),
        |bb: Seq<u8>| parse_instr(bb),
        |i: InstructionView| wf_instr(i),
    );
    assert(forall|v: Seq<char>, r: Seq<u8>| str_ok(v) ==> #[trigger] parse_string(
        enc_string(v) + r,
    ) == Some((v, r))) by {
        assert forall|v: Seq<char>, r: Seq<u8>| str_ok(v) implies #[trigger] parse_string(
            enc_string(v) + r,
        ) == Some((v, r)) by {
            lemma_parse_string_enc(v, r);
        }
    }
    lemma_parse_vec_enc(
        p.string_table,
        r2,
        |s: Seq<char>| enc_string(s),
        |bb: Seq<u8>| parse_string(bb),
        |s: Seq<char>| str_ok(s),
    );
    assert(forall|v: crate::ir::SymbolView, r: Seq<u8>| wf_symbol(v) ==> #[trigger] parse_symbol(
        enc_symbol(v) + r,
    ) == Some((v, r))) by {
        assert forall|v: crate::ir::SymbolView, r: Seq<u8>| wf_symbol(v) implies
            #[trigger] parse_symbol(enc_symbol(v) + r) == Some((v, r)) by {
            lemma_parse_symbol_enc(v, r);
        }
    }
    lemma_parse_vec_enc(
        p.symbol_table,
        rest,
        |s: crate::ir::SymbolView| enc_symbol(s),
        |bb: Seq<u8>| parse_symbol(bb),
        |s: crate::ir::SymbolView| wf_symbol(s),
    );
    assert((ProgramView {
        instructions: p.instructions,
        string_table: p.string_table,
        symbol_table: p.symbol_table,
    }) =~= p);
}

/// Loading undoes emitting: for every well-formed program, the bytes the
/// codec emits decode to a content-equal program. The codec performs no
/// semantic transformation.
pub proof fn lemma_emit_load_round_trip(p: ProgramView)
    requires
        wf_program(p),
    ensures
        spec_load(spec_emit(p)) == Ok::<ProgramView, CodecError>(p),
{
    lemma_parse_u32_enc(BYTECODE_VERSION, enc_program(p));
    assert(enc_program(p) =~= enc_program(p) + Seq::<u8>::empty());
    lemma_parse_program_enc(p, Seq::empty());
}

/// The version gate: any artifact whose four-byte version tag is not the
/// compiled-in bytecode version fails to load with the version-mismatch
/// kind — never the malformed kind — whatever the rest of the payload
/// holds, and the error carries both the expected and the found version.
pub proof fn lemma_version_gate(b: Seq<u8>, ver: u32)
    requires
        b.len() >= 4,
        ver == u32_of_le(b[0], b[1], b[2], b[3]),
        ver != BYTECODE_VERSION,
    ensures
        spec_load(b) == Err::<ProgramView, CodecError>(
            CodecError::VersionMismatch { expected: BYTECODE_VERSION, found: ver },
        ),
{
}

// ---------------------------------------------------------------------------
// Emitting, executably.
// ---------------------------------------------------------------------------

proof fn lemma_enc_each_push<T>(a: Seq<T>, x: T, f: spec_fn(T) -> Seq<u8>)
    ensures
        enc_each(a.push(x), f) == enc_each(a, f) + f(x),
    decreases a.len(),
{
    if a.len() == 0 {
        reveal_with_fuel(enc_each, 2);
        assert(a.push(x)[0] == x);
        assert(a.push(x).drop_first() =~= Seq::<T>::empty());
        assert(enc_each(a.push(x), f) =~= enc_each(a, f) + f(x));
    } else {
        assert(a.push(x)[0] == a[0]);
        assert(a.push(x).drop_first() =~= a.drop_first().push(x));
        lemma_enc_each_push(a.drop_first(), x, f);
        assert(enc_each(a.push(x), f) =~= enc_each(a, f) + f(x));
    }
}

fn push_u32_le(out: &mut Vec<u8>, v: u32)
    ensures
        final(out)@ == old(out)@ + enc_u32(v),
{
    proof {
        assert(v & 0xff < 256 && (v >> 8) & 0xff < 256 && (v >> 16) & 0xff < 256 && (v >> 24)
            & 0xff < 256) by (bit_vector);
    }
    out.push((v & 0xff) as u8);
    out.push(((v >> 8) & 0xff) as u8);
    out.push(((v >> 16) & 0xff) as u8);
    out.push(((v >> 24) & 0xff) as u8);
    proof {
        assert(out@ =~= old(out)@ + enc_u32(v));
    }
}

fn push_u64_le(out: &mut Vec<u8>, v: u64)
    ensures
        final(out)@ == old(out)@ + enc_u64(v),
{
    proof {
        assert(v & 0xff < 256 && (v >> 8) & 0xff < 256 && (v >> 16) & 0xff < 256 && (v >> 24)
            & 0xff < 256 && (v >> 32) & 0xff < 256 && (v >> 40) & 0xff < 256 && (v >> 48) & 0xff
            < 256 && (v >> 56) & 0xff < 256) by (bit_vector);
    }
    out.push((v & 0xff) as u8);
    out.push(((v >> 8) & 0xff) as u8);
    out.push(((v >> 16) & 0xff) as u8);
    out.push(((v >> 24) & 0xff) as u8);
    out.push(((v >> 32) & 0xff) as u8);
    out.push(((v >> 40) & 0xff) as u8);
    out.push(((v >> 48) & 0xff) as u8);
    out.push(((v >> 56) & 0xff) as u8);
    proof {
        assert(out@ =~= old(out)@ + enc_u64(v));
    }
}

fn push_string(out: &mut Vec<u8>, s: &String)
    ensures
        final(out)@ == old(out)@ + enc_string(s@),
        str_ok(s@),
{
    let bs = s.as_str().as_bytes();
    push_u64_le(out, bs.len() as u64);
    let ghost mid = out@;
    let mut i: usize = 0;
    while i < bs.len()
        invariant
            i <= bs@.len(),
            bs@ == encode_utf8(s@),
            out@ == mid + bs@.take(i as int),
        decreases bs@.len() - i,
    {
        out.push(bs[i]);
        proof {
            assert(out@ =~= mid + bs@.take(i as int + 1));
        }
        i = i + 1;
    }
    proof {
        assert(bs@.take(i as int) =~= bs@);
        assert(out@ =~= old(out)@ + enc_string(s@));
    }
}

fn push_datatype(out: &mut Vec<u8>, d: &DataType)
    ensures
        final(out)@ == old(out)@ + enc_datatype(*d),
{
    match d {
        DataType::Str => out.push(0),
        DataType::Number => out.push(1),
        DataType::Bool => out.push(2),
    }
    proof {
        assert(out@ =~= old(out)@ + enc_datatype(*d));
    }
}

fn push_opt_datatype(out: &mut Vec<u8>, d: &Option<DataType>)
    ensures
        final(out)@ == old(out)@ + enc_opt_datatype(*d),
{
    match d {
        None => out.push(0),
        Some(dt) => {
            out.push(1);
            push_datatype(out, dt);
        },
    }
    proof {
        assert(out@ =~= old(out)@ + enc_opt_datatype(*d));
    }
}

fn push_logtype(out: &mut Vec<u8>, t: &LogType)
    ensures
        final(out)@ == old(out)@ + enc_logtype(*t),
{
    match t {
        LogType::Info => out.push(0),
        LogType::Warn => out.push(1),
        LogType::Error => out.push(2),
    }
    proof {
        assert(out@ =~= old(out)@ + enc_logtype(*t));
    }
}

fn push_value(out: &mut Vec<u8>, v: &Value)
    ensures
        final(out)@ == old(out)@ + enc_value(v@),
        wf_value(v@),
{
    match v {
        Value::Str(s) => {
            out.push(0);
            push_string(out, s);
        },
        Value::Number(t) => {
            out.push(1);
            push_string(out, t);
        },
        Value::Bool(b) => {
            out.push(2);
            out.push(if *b { 1 } else { 0 });
        },
        Value::Null => {
            out.push(3);
        },
    }
    proof {
        assert(out@ =~= old(out)@ + enc_value(v@));
    }
}

fn push_u32_vec(out: &mut Vec<u8>, ids: &Vec<u32>)
    ensures
        final(out)@ == old(out)@ + enc_vec(ids@, |id: u32| enc_u32(id)),
        ids@.len() <= u64::MAX,
{
    push_u64_le(out, ids.len() as u64);
    let ghost f = |id: u32| enc_u32(id);
    let ghost mid = out@;
    let mut i: usize = 0;
    while i < ids.len()
        invariant
            i <= ids@.len(),
            out@ == mid + enc_each(ids@.take(i as int), f),
            f == (|id: u32| enc_u32(id)),
        decreases ids@.len() - i,
    {
        push_u32_le(out, ids[i]);
        proof {
            assert(ids@.take(i as int).push(ids@[i as int]) =~= ids@.take(i as int + 1));
            lemma_enc_each_push(ids@.take(i as int), ids@[i as int], f);
        }
        i = i + 1;
    }
    proof {
        assert(ids@.take(i as int) =~= ids@);
        assert(out@ =~= old(out)@ + enc_vec(ids@, f));
    }
}

fn push_instr(out: &mut Vec<u8>, ins: &Instruction)
    ensures
        final(out)@ == old(out)@ + enc_instr(ins@),
        wf_instr(ins@),
{
    match ins {
        Instruction::InitVar { symbol_id, value } => {
            out.push(0);
            push_u32_le(out, *symbol_id);
            push_value(out, value);
        },
        Instruction::SetVar { symbol_id, value } => {
            out.push(1);
            push_u32_le(out, *symbol_id);
            push_value(out, value);
        },
        Instruction::SetVarFromStack { symbol_id } => {
            out.push(2);
            push_u32_le(out, *symbol_id);
        },
        Instruction::DeclareFunc {
            symbol_id,
            param_count,
            param_symbol_ids,
            body_start,
            body_end,
        } => {
            out.push(3);
            push_u32_le(out, *symbol_id);
            push_u32_le(out, *param_count);
            push_u32_vec(out, param_symbol_ids);
            push_u32_le(out, *body_start);
            push_u32_le(out, *body_end);
        },
        Instruction::CallFunc { symbol_id, arg_count } => {
            out.push(4);
            push_u32_le(out, *symbol_id);
            push_u32_le(out, *arg_count);
        },
        Instruction::LoadValue { value } => {
            out.push(5);
            push_value(out, value);
        },
        Instruction::LoadVar { symbol_id } => {
            out.push(6);
            push_u32_le(out, *symbol_id);
        },
        Instruction::Concat => {
            out.push(7);
        },
        Instruction::Log { log_type, message_expr_start, message_expr_end } => {
            out.push(8);
            push_logtype(out, log_type);
            push_u32_le(out, *message_expr_start);
            push_u32_le(out, *message_expr_end);
        },
        Instruction::Return => {
            out.push(9);
        },
    }
    proof {
        assert(out@ =~= old(out)@ + enc_instr(ins@));
    }
}

fn push_symbolkind(out: &mut Vec<u8>, k: &SymbolKind)
    ensures
        final(out)@ == old(out)@ + enc_symbolkind(k@),
        k@ matches SymbolKindView::Function { param_types, .. } ==> param_types.len() <= u64::MAX,
{
    match k {
        SymbolKind::Variable { data_type } => {
            out.push(0);
            push_datatype(out, data_type);
        },
        SymbolKind::Function { param_types, return_type } => {
            out.push(1);
            push_u64_le(out, param_types.len() as u64);
            let ghost f = |d: DataType| enc_datatype(d);
            let ghost mid = out@;
            let mut i: usize = 0;
            while i < param_types.len()
                invariant
                    i <= param_types@.len(),
                    out@ == mid + enc_each(param_types@.take(i as int), f),
                    f == (|d: DataType| enc_datatype(d)),
                decreases param_types@.len() - i,
            {
                push_datatype(out, &param_types[i]);
                proof {
                    assert(param_types@.take(i as int).push(param_types@[i as int])
                        =~= param_types@.take(i as int + 1));
                    lemma_enc_each_push(param_types@.take(i as int), param_types@[i as int], f);
                }
                i = i + 1;
            }
            proof {
                assert(param_types@.take(i as int) =~= param_types@);
            }
            push_opt_datatype(out, return_type);
        },
    }
    proof {
        assert(out@ =~= old(out)@ + enc_symbolkind(k@));
    }
}

fn push_symbol(out: &mut Vec<u8>, s: &Symbol)
    ensures
        final(out)@ == old(out)@ + enc_symbol(s@),
        wf_symbol(s@),
{
    push_u32_le(out, s.id);
    push_string(out, &s.name);
    push_symbolkind(out, &s.kind);
    proof {
        assert(out@ =~= old(out)@ + enc_symbol(s@));
    }
}

/// Serializes a program, wrapped in the codec's version tag, to its binary
/// artifact bytes. Writing them to disk is the caller's business.
pub fn emit_bytecode(program: &Program) -> (r: Vec<u8>)
    ensures
        r@ == spec_emit(program@),
        wf_program(program@),
{
    let mut out: Vec<u8> = Vec::new();
    push_u32_le(&mut out, BYTECODE_VERSION);

    push_u64_le(&mut out, program.instructions.len() as u64);
    let ghost fi = |i: InstructionView| enc_instr(i);
    let ghost mid1 = out@;
    let mut i: usize = 0;
    while i < program.instructions.len()
        invariant
            i <= program.instructions@.len(),
            out@ == mid1 + enc_each(instrs_view(program.instructions@).take(i as int), fi),
            fi == (|i: InstructionView| enc_instr(i)),
            forall|j: int| 0 <= j < i ==> wf_instr(#[trigger] instrs_view(
                program.instructions@,
            )[j]),
        decreases program.instructions@.len() - i,
    {
        push_instr(&mut out, &program.instructions[i]);
        proof {
            let ghost vs = instrs_view(program.instructions@);
            assert(vs.take(i as int).push(vs[i as int]) =~= vs.take(i as int + 1));
            lemma_enc_each_push(vs.take(i as int), vs[i as int], fi);
        }
        i = i + 1;
    }
    proof {
        let ghost vs = instrs_view(program.instructions@);
        assert(vs.take(i as int) =~= vs);
    }

    push_u64_le(&mut out, program.string_table.len() as u64);
    let ghost fs = |s: Seq<char>| enc_string(s);
    let ghost mid2 = out@;
    let mut j: usize = 0;
    while j < program.string_table.len()
        invariant
            j <= program.string_table@.len(),
            out@ == mid2 + enc_each(
                program.string_table@.map_values(|s: String| s@).take(j as int),
                fs,
            ),
            fs == (|s: Seq<char>| enc_string(s)),
            forall|x: int| 0 <= x < j ==> str_ok((#[trigger] program.string_table@[x])@),
        decreases program.string_table@.len() - j,
    {
        push_string(&mut out, &program.string_table[j]);
        proof {
            let ghost vs = program.string_table@.map_values(|s: String| s@);
            assert(vs.take(j as int).push(vs[j as int]) =~= vs.take(j as int + 1));
            lemma_enc_each_push(vs.take(j as int), vs[j as int], fs);
        }
        j = j + 1;
    }
    proof {
        let ghost vs = program.string_table@.map_values(|s: String| s@);
        assert(vs.take(j as int) =~= vs);
    }

    push_u64_le(&mut out, program.symbol_table.len() as u64);
    let ghost fy = |s: crate::ir::SymbolView| enc_symbol(s);
    let ghost mid3 = out@;
    let mut k: usize = 0;
    while k < program.symbol_table.len()
        invariant
            k <= program.symbol_table@.len(),
            out@ == mid3 + enc_each(symbols_view(program.symbol_table@).take(k as int), fy),
            fy == (|s: crate::ir::SymbolView| enc_symbol(s)),
            forall|x: int| 0 <= x < k ==> wf_symbol(#[trigger] symbols_view(
                program.symbol_table@,
            )[x]),
        decreases program.symbol_table@.len() - k,
    {
        push_symbol(&mut out, &program.symbol_table[k]);
        proof {
            let ghost vs = symbols_view(program.symbol_table@);
            assert(vs.take(k as int).push(vs[k as int]) =~= vs.take(k as int + 1));
            lemma_enc_each_push(vs.take(k as int), vs[k as int], fy);
        }
        k = k + 1;
    }
    proof {
        let ghost vs = symbols_view(program.symbol_table@);
        assert(vs.take(k as int) =~= vs);
        assert(out@ =~= spec_emit(program@));
    }
    out
}

// ---------------------------------------------------------------------------
// Loading, executably: a cursor walks the byte slice, and every reader's
// contract ties it to the corresponding specification parser applied to the
// bytes from the cursor on.
// ---------------------------------------------------------------------------

/// Relies on core::str::from_utf8: it accepts exactly the valid UTF-8 byte
/// sequences, and the accepted string's bytes are the input bytes.
#[verifier::external_body]
fn utf8_decode(bytes: &[u8]) -> (r: Option<String>)
    ensures
        r is Some <==> valid_utf8(bytes@),
        r matches Some(s) ==> encode_utf8(s@) == bytes@,
{
    match core::str::from_utf8(bytes) {
        Ok(s) => Some(s.to_owned()),
        Err(_) => None,
    }
}

fn read_u8(bytes: &[u8], pos: usize) -> (r: Option<(u8, usize)>)
    requires
        pos <= bytes@.len(),
    ensures
        match r {
            Some(t) => pos <= t.1 <= bytes@.len() && parse_u8(bytes@.skip(pos as int)) == Some(
                (t.0, bytes@.skip(t.1 as int)),
            ),
            None => parse_u8(bytes@.skip(pos as int)) is None,
        },
{
    if bytes.len() - pos >= 1 {
        let v = bytes[pos];
        proof {
            assert(bytes@.skip(pos as int).skip(1) =~= bytes@.skip(pos as int + 1));
        }
        Some((v, pos + 1))
    } else {
        None
    }
}

fn read_u32(bytes: &[u8], pos: usize) -> (r: Option<(u32, usize)>)
    requires
        pos <= bytes@.len(),
    ensures
        match r {
            Some(t) => pos <= t.1 <= bytes@.len() && parse_u32(bytes@.skip(pos as int)) == Some(
                (t.0, bytes@.skip(t.1 as int)),
            ),
            None => parse_u32(bytes@.skip(pos as int)) is None,
        },
{
    if bytes.len() - pos >= 4 {
        let v = (bytes[pos] as u32) | ((bytes[pos + 1] as u32) << 8) | (
        (bytes[pos + 2] as u32) << 16) | ((bytes[pos + 3] as u32) << 24);
        proof {
            assert(bytes@.skip(pos as int).skip(4) =~= bytes@.skip(pos as int + 4));
        }
        Some((v, pos + 4))
    } else {
        None
    }
}

fn read_u64(bytes: &[u8], pos: usize) -> (r: Option<(u64, usize)>)
    requires
        pos <= bytes@.len(),
    ensures
        match r {
            Some(t) => pos <= t.1 <= bytes@.len() && parse_u64(bytes@.skip(pos as int)) == Some(
                (t.0, bytes@.skip(t.1 as int)),
            ),
            None => parse_u64(bytes@.skip(pos as int)) is None,
        },
{
    if bytes.len() - pos >= 8 {
        let v = (bytes[pos] as u64) | ((bytes[pos + 1] as u64) << 8) | (
        (bytes[pos + 2] as u64) << 16) | ((bytes[pos + 3] as u64) << 24) | (
        (bytes[pos + 4] as u64) << 32) | ((bytes[pos + 5] as u64) << 40) | (
        (bytes[pos + 6] as u64) << 48) | ((bytes[pos + 7] as u64) << 56);
        proof {
            assert(bytes@.skip(pos as int).skip(8) =~= bytes@.skip(pos as int + 8));
        }
        Some((v, pos + 8))
    } else {
        None
    }
}

fn read_string(bytes: &[u8], pos: usize) -> (r: Option<(String, usize)>)
    requires
        pos <= bytes@.len(),
    ensures
        match r {
            Some(t) => pos <= t.1 <= bytes@.len() && parse_string(bytes@.skip(pos as int))
                == Some((t.0@, bytes@.skip(t.1 as int))),
            None => parse_string(bytes@.skip(pos as int)) is None,
        },
{
    match read_u64(bytes, pos) {
        Some((n, p1)) => {
            if n > (bytes.len() - p1) as u64 {
                return None;
            }
            let k = n as usize;
            let mut sub: Vec<u8> = Vec::new();
            let mut i: usize = 0;
            while i < k
                invariant
                    i <= k,
                    p1 + k <= bytes@.len(),
                    bytes@.len() <= usize::MAX,
                    sub@ == bytes@.subrange(p1 as int, p1 as int + i as int),
                decreases k - i,
            {
                sub.push(bytes[p1 + i]);
                proof {
                    assert(sub@ =~= bytes@.subrange(p1 as int, p1 as int + i as int + 1));
                }
                i = i + 1;
            }
            proof {
                assert(sub@ =~= bytes@.skip(p1 as int).take(n as int));
            }
            match utf8_decode(sub.as_slice()) {
                Some(s) => {
                    proof {
                        vstd::utf8::encode_utf8_decode_utf8(s@);
                        assert(bytes@.skip(p1 as int).skip(n as int) =~= bytes@.skip(
                            p1 as int + k as int,
                        ));
                    }
                    Some((s, p1 + k))
                },
                None => None,
            }
        },
        None => None,
    }
}

fn read_datatype(bytes: &[u8], pos: usize) -> (r: Option<(DataType, usize)>)
    requires
        pos <= bytes@.len(),
    ensures
        match r {
            Some(t) => pos <= t.1 <= bytes@.len() && parse_datatype(bytes@.skip(pos as int))
                == Some((t.0, bytes@.skip(t.1 as int))),
            None => parse_datatype(bytes@.skip(pos as int)) is None,
        },
{
    match read_u8(bytes, pos) {
        Some((t, p1)) => {
            if t == 0 {
                Some((DataType::Str, p1))
            } else if t == 1 {
                Some((DataType::Number, p1))
            } else if t == 2 {
                Some((DataType::Bool, p1))
            } else {
                None
            }
        },
        None => None,
    }
}

fn read_opt_datatype(bytes: &[u8], pos: usize) -> (r: Option<(Option<DataType>, usize)>)
    requires
        pos <= bytes@.len(),
    ensures
        match r {
            Some(t) => pos <= t.1 <= bytes@.len() && parse_opt_datatype(bytes@.skip(pos as int))
                == Some((t.0, bytes@.skip(t.1 as int))),
            None => parse_opt_datatype(bytes@.skip(pos as int)) is None,
        },
{
    match read_u8(bytes, pos) {
        Some((t, p1)) => {
            if t == 0 {
                Some((None, p1))
            } else if t == 1 {
                match read_datatype(bytes, p1) {
                    Some((d, p2)) => Some((Some(d), p2)),
                    None => None,
                }
            } else {
                None
            }
        },
        None => None,
    }
}

fn read_logtype(bytes: &[u8], pos: usize) -> (r: Option<(LogType, usize)>)
    requires
        pos <= bytes@.len(),
    ensures
        match r {
            Some(t) => pos <= t.1 <= bytes@.len() && parse_logtype(bytes@.skip(pos as int))
                == Some((t.0, bytes@.skip(t.1 as int))),
            None => parse_logtype(bytes@.skip(pos as int)) is None,
        },
{
    match read_u8(bytes, pos) {
        Some((t, p1)) => {
            if t == 0 {
                Some((LogType::Info, p1))
            } else if t == 1 {
                Some((LogType::Warn, p1))
            } else if t == 2 {
                Some((LogType::Error, p1))
            } else {
                None
            }
        },
        None => None,
    }
}

fn read_value(bytes: &[u8], pos: usize) -> (r: Option<(Value, usize)>)
    requires
        pos <= bytes@.len(),
    ensures
        match r {
            Some(t) => pos <= t.1 <= bytes@.len() && parse_value(bytes@.skip(pos as int)) == Some(
                (t.0@, bytes@.skip(t.1 as int)),
            ),
            None => parse_value(bytes@.skip(pos as int)) is None,
        },
{
    match read_u8(bytes, pos) {
        Some((t, p1)) => {
            if t == 0 {
                match read_string(bytes, p1) {
                    Some((s, p2)) => Some((Value::Str(s), p2)),
                    None => None,
                }
            } else if t == 1 {
                match read_string(bytes, p1) {
                    Some((s, p2)) => Some((Value::Number(s), p2)),
                    None => None,
                }
            } else if t == 2 {
                match read_u8(bytes, p1) {
                    Some((x, p2)) => {
                        if x == 0 {
                            Some((Value::Bool(false), p2))
                        } else if x == 1 {
                            Some((Value::Bool(true), p2))
                        } else {
                            None
                        }
                    },
                    None => None,
                }
            } else if t == 3 {
                Some((Value::Null, p1))
            } else {
                None
            }
        },
        None => None,
    }
}

fn read_u32_vec(bytes: &[u8], pos: usize) -> (r: Option<(Vec<u32>, usize)>)
    requires
        pos <= bytes@.len(),
    ensures
        match r {
            Some(t) => pos <= t.1 <= bytes@.len() && parse_vec(
                bytes@.skip(pos as int),
                |bb: Seq<u8>| parse_u32(bb),
            ) == Some((t.0@, bytes@.skip(t.1 as int))),
            None => parse_vec(bytes@.skip(pos as int), |bb: Seq<u8>| parse_u32(bb)) is None,
        },
{
    let ghost f = |bb: Seq<u8>| parse_u32(bb);
    match read_u64(bytes, pos) {
        Some((n, p1)) => {
            let total: usize = bytes.len();
            let ghost b0 = bytes@.skip(p1 as int);
            let mut acc: Vec<u32> = Vec::new();
            let mut cur: usize = p1;
            let mut i: u64 = 0;
            while i < n
                invariant
                    i <= n,
                    pos <= p1 <= bytes@.len(),
                    p1 <= cur <= bytes@.len(),
                    total == bytes@.len(),
                    b0 == bytes@.skip(p1 as int),
                    parse_u64(bytes@.skip(pos as int)) == Some((n, b0)),
                    f == (|bb: Seq<u8>| parse_u32(bb)),
                    parse_n(b0, n as int, f) == (match parse_n(
                        bytes@.skip(cur as int),
                        n as int - i as int,
                        f,
                    ) {
                        Some(t) => Some((acc@ + t.0, t.1)),
                        None => None::<(Seq<u32>, Seq<u8>)>,
                    }),
                decreases n - i,
            {
                let ghost acc0 = acc@;
                let ghost cur0 = cur as int;
                match read_u32(bytes, cur) {
                    Some((v, p2)) => {
                        acc.push(v);
                        cur = p2;
                        proof {
                            match parse_n(bytes@.skip(cur0 + 4), n as int - i as int - 1, f) {
                                Some(t) => {
                                    assert(acc0 + (seq![v] + t.0) =~= (acc0.push(v)) + t.0);
                                },
                                None => {},
                            }
                            assert(bytes@.skip(cur0).skip(4) =~= bytes@.skip(cur0 + 4));
                        }
                    },
                    None => {
                        return None;
                    },
                }
                i = i + 1;
            }
            proof {
                assert(acc@ + Seq::<u32>::empty() =~= acc@);
            }
            Some((acc, cur))
        },
        None => None,
    }
}

fn read_datatype_vec(bytes: &[u8], pos: usize) -> (r: Option<(Vec<DataType>, usize)>)
    requires
        pos <= bytes@.len(),
    ensures
        match r {
            Some(t) => pos <= t.1 <= bytes@.len() && parse_vec(
                bytes@.skip(pos as int),
                |bb: Seq<u8>| parse_datatype(bb),
            ) == Some((t.0@, bytes@.skip(t.1 as int))),
            None => parse_vec(bytes@.skip(pos as int), |bb: Seq<u8>| parse_datatype(bb)) is None,
        },
{
    let ghost f = |bb: Seq<u8>| parse_datatype(bb);
    match read_u64(bytes, pos) {
        Some((n, p1)) => {
            let total: usize = bytes.len();
            let ghost b0 = bytes@.skip(p1 as int);
            let mut acc: Vec<DataType> = Vec::new();
            let mut cur: usize = p1;
            let mut i: u64 = 0;
            while i < n
                invariant
                    i <= n,
                    pos <= p1 <= bytes@.len(),
                    p1 <= cur <= bytes@.len(),
                    total == bytes@.len(),
                    b0 == bytes@.skip(p1 as int),
                    parse_u64(bytes@.skip(pos as int)) == Some((n, b0)),
                    f == (|bb: Seq<u8>| parse_datatype(bb)),
                    parse_n(b0, n as int, f) == (match parse_n(
                        bytes@.skip(cur as int),
                        n as int - i as int,
                        f,
                    ) {
                        Some(t) => Some((acc@ + t.0, t.1)),
                        None => None::<(Seq<DataType>, Seq<u8>)>,
                    }),
                decreases n - i,
            {
                let ghost acc0 = acc@;
                let ghost cur0 = cur as int;
                match read_datatype(bytes, cur) {
                    Some((v, p2)) => {
                        acc.push(v);
                        proof {
                            match parse_n(bytes@.skip(p2 as int), n as int - i as int - 1, f) {
                                Some(t) => {
                                    assert(acc0 + (seq![v] + t.0) =~= (acc0.push(v)) + t.0);
                                },
                                None => {},
                            }
                        }
                        cur = p2;
                    },
                    None => {
                        return None;
                    },
                }
                i = i + 1;
            }
            proof {
                assert(acc@ + Seq::<DataType>::empty() =~= acc@);
            }
            Some((acc, cur))
        },
        None => None,
    }
}

fn read_symbolkind(bytes: &[u8], pos: usize) -> (r: Option<(SymbolKind, usize)>)
    requires
        pos <= bytes@.len(),
    ensures
        match r {
            Some(t) => pos <= t.1 <= bytes@.len() && parse_symbolkind(bytes@.skip(pos as int))
                == Some((t.0@, bytes@.skip(t.1 as int))),
            None => parse_symbolkind(bytes@.skip(pos as int)) is None,
        },
{
    match read_u8(bytes, pos) {
        Some((t, p1)) => {
            if t == 0 {
                match read_datatype(bytes, p1) {
                    Some((d, p2)) => Some((SymbolKind::Variable { data_type: d }, p2)),
                    None => None,
                }
            } else if t == 1 {
                match read_datatype_vec(bytes, p1) {
                    Some((ds, p2)) => match read_opt_datatype(bytes, p2) {
                        Some((rt, p3)) => Some((
                            SymbolKind::Function { param_types: ds, return_type: rt },
                            p3,
                        )),
                        None => None,
                    },
                    None => None,
                }
            } else {
                None
            }
        },
        None => None,
    }
}

fn read_symbol(bytes: &[u8], pos: usize) -> (r: Option<(Symbol, usize)>)
    requires
        pos <= bytes@.len(),
    ensures
        match r {
            Some(t) => pos <= t.1 <= bytes@.len() && parse_symbol(bytes@.skip(pos as int))
                == Some((t.0@, bytes@.skip(t.1 as int))),
            None => parse_symbol(bytes@.skip(pos as int)) is None,
        },
{
    match read_u32(bytes, pos) {
        Some((id, p1)) => match read_string(bytes, p1) {
            Some((name, p2)) => match read_symbolkind(bytes, p2) {
                Some((k, p3)) => Some((Symbol { id, name, kind: k }, p3)),
                None => None,
            },
            None => None,
        },
        None => None,
    }
}

fn read_instr(bytes: &[u8], pos: usize) -> (r: Option<(Instruction, usize)>)
    requires
        pos <= bytes@.len(),
    ensures
        match r {
            Some(t) => pos <= t.1 <= bytes@.len() && parse_instr(bytes@.skip(pos as int)) == Some(
                (t.0@, bytes@.skip(t.1 as int)),
            ),
            None => parse_instr(bytes@.skip(pos as int)) is None,
        },
{
    match read_u8(bytes, pos) {
        Some((t, p1)) => {
            if t == 0 || t == 1 {
                match read_u32(bytes, p1) {
                    Some((id, p2)) => match read_value(bytes, p2) {
                        Some((v, p3)) => {
                            if t == 0 {
                                Some((Instruction::InitVar { symbol_id: id, value: v }, p3))
                            } else {
                                Some((Instruction::SetVar { symbol_id: id, value: v }, p3))
                            }
                        },
                        None => None,
                    },
                    None => None,
                }
            } else if t == 2 {
                match read_u32(bytes, p1) {
                    Some((id, p2)) => Some((Instruction::SetVarFromStack { symbol_id: id }, p2)),
                    None => None,
                }
            } else if t == 3 {
                match read_u32(bytes, p1) {
                    Some((id, p2)) => match read_u32(bytes, p2) {
                        Some((pc, p3)) => match read_u32_vec(bytes, p3) {
                            Some((ids, p4)) => match read_u32(bytes, p4) {
                                Some((bs, p5)) => match read_u32(bytes, p5) {
                                    Some((be, p6)) => Some((
                                        Instruction::DeclareFunc {
                                            symbol_id: id,
                                            param_count: pc,
                                            param_symbol_ids: ids,
                                            body_start: bs,
                                            body_end: be,
                                        },
                                        p6,
                                    )),
                                    None => None,
                                },
                                None => None,
                            },
                            None => None,
                        },
                        None => None,
                    },
                    None => None,
                }
            } else if t == 4 {
                match read_u32(bytes, p1) {
                    Some((id, p2)) => match read_u32(bytes, p2) {
                        Some((ac, p3)) => Some((
                            Instruction::CallFunc { symbol_id: id, arg_count: ac },
                            p3,
                        )),
                        None => None,
                    },
                    None => None,
                }
            } else if t == 5 {
                match read_value(bytes, p1) {
                    Some((v, p2)) => Some((Instruction::LoadValue { value: v }, p2)),
                    None => None,
                }
            } else if t == 6 {
                match read_u32(bytes, p1) {
                    Some((id, p2)) => Some((Instruction::LoadVar { symbol_id: id }, p2)),
                    None => None,
                }
            } else if t == 7 {
                Some((Instruction::Concat, p1))
            } else if t == 8 {
                match read_logtype(bytes, p1) {
                    Some((lt, p2)) => match read_u32(bytes, p2) {
                        Some((ms, p3)) => match read_u32(bytes, p3) {
                            Some((me, p4)) => Some((
                                Instruction::Log {
                                    log_type: lt,
                                    message_expr_start: ms,
                                    message_expr_end: me,
                                },
                                p4,
                            )),
                            None => None,
                        },
                        None => None,
                    },
                    None => None,
                }
            } else if t == 9 {
                Some((Instruction::Return, p1))
            } else {
                None
            }
        },
        None => None,
    }
}

fn read_instr_vec(bytes: &[u8], pos: usize) -> (r: Option<(Vec<Instruction>, usize)>)
    requires
        pos <= bytes@.len(),
    ensures
        match r {
            Some(t) => pos <= t.1 <= bytes@.len() && parse_vec(
                bytes@.skip(pos as int),
                |bb: Seq<u8>| parse_instr(bb),
            ) == Some((instrs_view(t.0@), bytes@.skip(t.1 as int))),
            None => parse_vec(bytes@.skip(pos as int), |bb: Seq<u8>| parse_instr(bb)) is None,
        },
{
    let ghost f = |bb: Seq<u8>| parse_instr(bb);
    match read_u64(bytes, pos) {
        Some((n, p1)) => {
            let total: usize = bytes.len();
            let ghost b0 = bytes@.skip(p1 as int);
            let mut acc: Vec<Instruction> = Vec::new();
            let mut cur: usize = p1;
            let mut i: u64 = 0;
            while i < n
                invariant
                    i <= n,
                    pos <= p1 <= bytes@.len(),
                    p1 <= cur <= bytes@.len(),
                    total == bytes@.len(),
                    b0 == bytes@.skip(p1 as int),
                    parse_u64(bytes@.skip(pos as int)) == Some((n, b0)),
                    f == (|bb: Seq<u8>| parse_instr(bb)),
                    parse_n(b0, n as int, f) == (match parse_n(
                        bytes@.skip(cur as int),
                        n as int - i as int,
                        f,
                    ) {
                        Some(t) => Some((instrs_view(acc@) + t.0, t.1)),
                        None => None::<(Seq<InstructionView>, Seq<u8>)>,
                    }),
                decreases n - i,
            {
                let ghost acc0 = instrs_view(acc@);
                match read_instr(bytes, cur) {
                    Some((v, p2)) => {
                        acc.push(v);
                        proof {
                            assert(instrs_view(acc@) =~= acc0.push(acc@.last()@));
                            match parse_n(bytes@.skip(p2 as int), n as int - i as int - 1, f) {
                                Some(t) => {
                                    assert(acc0 + (seq![acc@.last()@] + t.0) =~= instrs_view(acc@)
                                        + t.0);
                                },
                                None => {},
                            }
                        }
                        cur = p2;
                    },
                    None => {
                        return None;
                    },
                }
                i = i + 1;
            }
            proof {
                assert(instrs_view(acc@) + Seq::<InstructionView>::empty() =~= instrs_view(acc@));
            }
            Some((acc, cur))
        },
        None => None,
    }
}

fn read_string_vec(bytes: &[u8], pos: usize) -> (r: Option<(Vec<String>, usize)>)
    requires
        pos <= bytes@.len(),
    ensures
        match r {
            Some(t) => pos <= t.1 <= bytes@.len() && parse_vec(
                bytes@.skip(pos as int),
                |bb: Seq<u8>| parse_string(bb),
            ) == Some((t.0@.map_values(|s: String| s@), bytes@.skip(t.1 as int))),
            None => parse_vec(bytes@.skip(pos as int), |bb: Seq<u8>| parse_string(bb)) is None,
        },
{
    let ghost f = |bb: Seq<u8>| parse_string(bb);
    match read_u64(bytes, pos) {
        Some((n, p1)) => {
            let total: usize = bytes.len();
            let ghost b0 = bytes@.skip(p1 as int);
            let mut acc: Vec<String> = Vec::new();
            let mut cur: usize = p1;
            let mut i: u64 = 0;
            while i < n
                invariant
                    i <= n,
                    pos <= p1 <= bytes@.len(),
                    p1 <= cur <= bytes@.len(),
                    total == bytes@.len(),
                    b0 == bytes@.skip(p1 as int),
                    parse_u64(bytes@.skip(pos as int)) == Some((n, b0)),
                    f == (|bb: Seq<u8>| parse_string(bb)),
                    parse_n(b0, n as int, f) == (match parse_n(
                        bytes@.skip(cur as int),
                        n as int - i as int,
                        f,
                    ) {
                        Some(t) => Some((acc@.map_values(|s: String| s@) + t.0, t.1)),
                        None => None::<(Seq<Seq<char>>, Seq<u8>)>,
                    }),
                decreases n - i,
            {
                let ghost acc0 = acc@.map_values(|s: String| s@);
                match read_string(bytes, cur) {
                    Some((v, p2)) => {
                        acc.push(v);
                        proof {
                            assert(acc@.map_values(|s: String| s@) =~= acc0.push(acc@.last()@));
                            match parse_n(bytes@.skip(p2 as int), n as int - i as int - 1, f) {
                                Some(t) => {
                                    assert(acc0 + (seq![acc@.last()@] + t.0) =~= acc@.map_values(
                                        |s: String| s@,
                                    ) + t.0);
                                },
                                None => {},
                            }
                        }
                        cur = p2;
                    },
                    None => {
                        return None;
                    },
                }
                i = i + 1;
            }
            proof {
                assert(acc@.map_values(|s: String| s@) + Seq::<Seq<char>>::empty()
                    =~= acc@.map_values(|s: String| s@));
            }
            Some((acc, cur))
        },
        None => None,
    }
}

fn read_symbol_vec(bytes: &[u8], pos: usize) -> (r: Option<(Vec<Symbol>, usize)>)
    requires
        pos <= bytes@.len(),
    ensures
        match r {
            Some(t) => pos <= t.1 <= bytes@.len() && parse_vec(
                bytes@.skip(pos as int),
                |bb: Seq<u8>| parse_symbol(bb),
            ) == Some((symbols_view(t.0@), bytes@.skip(t.1 as int))),
            None => parse_vec(bytes@.skip(pos as int), |bb: Seq<u8>| parse_symbol(bb)) is None,
        },
{
    let ghost f = |bb: Seq<u8>| parse_symbol(bb);
    match read_u64(bytes, pos) {
        Some((n, p1)) => {
            let total: usize = bytes.len();
            let ghost b0 = bytes@.skip(p1 as int);
            let mut acc: Vec<Symbol> = Vec::new();
            let mut cur: usize = p1;
            let mut i: u64 = 0;
            while i < n
                invariant
                    i <= n,
                    pos <= p1 <= bytes@.len(),
                    p1 <= cur <= bytes@.len(),
                    total == bytes@.len(),
                    b0 == bytes@.skip(p1 as int),
                    parse_u64(bytes@.skip(pos as int)) == Some((n, b0)),
                    f == (|bb: Seq<u8>| parse_symbol(bb)),
                    parse_n(b0, n as int, f) == (match parse_n(
                        bytes@.skip(cur as int),
                        n as int - i as int,
                        f,
                    ) {
                        Some(t) => Some((symbols_view(acc@) + t.0, t.1)),
                        None => None::<(Seq<crate::ir::SymbolView>, Seq<u8>)>,
                    }),
                decreases n - i,
            {
                let ghost acc0 = symbols_view(acc@);
                match read_symbol(bytes, cur) {
                    Some((v, p2)) => {
                        acc.push(v);
                        proof {
                            assert(symbols_view(acc@) =~= acc0.push(acc@.last()@));
                            match parse_n(bytes@.skip(p2 as int), n as int - i as int - 1, f) {
                                Some(t) => {
                                    assert(acc0 + (seq![acc@.last()@] + t.0) =~= symbols_view(acc@)
                                        + t.0);
                                },
                                None => {},
                            }
                        }
                        cur = p2;
                    },
                    None => {
                        return None;
                    },
                }
                i = i + 1;
            }
            proof {
                assert(symbols_view(acc@) + Seq::<crate::ir::SymbolView>::empty() =~= symbols_view(
                    acc@,
                ));
            }
            Some((acc, cur))
        },
        None => None,
    }
}

/// Deserializes a binary artifact back into a [`Program`]. The version tag
/// is checked first: an artifact written under any other bytecode version is
/// a [`CodecError::VersionMismatch`], carrying both versions, whatever else
/// it holds; an artifact that cannot be decoded, or that carries trailing
/// bytes, is [`CodecError::Malformed`]. Reading the bytes from disk is the
/// caller's business.
pub fn load_bytecode(bytes: &[u8]) -> (r: Result<Program, CodecError>)
    ensures
        match r {
            Ok(p) => spec_load(bytes@) == Ok::<ProgramView, CodecError>(p@),
            Err(e) => spec_load(bytes@) == Err::<ProgramView, CodecError>(e),
        },
{
    proof {
        assert(bytes@.skip(0) =~= bytes@);
    }
    match read_u32(bytes, 0) {
        Some((ver, p1)) => {
            if ver != BYTECODE_VERSION {
                return Err(
                    CodecError::VersionMismatch { expected: BYTECODE_VERSION, found: ver },
                );
            }
            match read_instr_vec(bytes, p1) {
                Some((instructions, p2)) => match read_string_vec(bytes, p2) {
                    Some((string_table, p3)) => match read_symbol_vec(bytes, p3) {
                        Some((symbol_table, p4)) => {
                            if p4 == bytes.len() {
                                let p = Program { instructions, string_table, symbol_table };
                                proof {
                                    assert(bytes@.skip(p4 as int) =~= Seq::<u8>::empty());
                                }
                                Ok(p)
                            } else {
                                Err(CodecError::Malformed)
                            }
                        },
                        None => Err(CodecError::Malformed),
                    },
                    None => Err(CodecError::Malformed),
                },
                None => Err(CodecError::Malformed),
            }
        },
        None => Err(CodecError::Malformed),
    }
}

} // verus!
