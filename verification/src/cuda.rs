//! The GPU evaluation worker's interface: its request, and the versioned
//! little-endian frames of its responses. Each execution occupies one
//! fixed record of `RECORD_BYTES` bytes.
use vstd::bytes::{
    lemma_auto_spec_u32_to_from_le_bytes, lemma_auto_spec_u64_to_from_le_bytes,
    spec_u32_from_le_bytes, spec_u32_to_le_bytes, spec_u64_from_le_bytes, spec_u64_to_le_bytes,
    u32_from_le_bytes, u32_to_le_bytes, u64_from_le_bytes, u64_to_le_bytes,
};
use vstd::prelude::*;
use vstd::utf8::{decode_utf8, encode_utf8, valid_utf8};

use crate::eval::{Execution, ExecutionM, Outcome, OutcomeM};
use crate::ir::Function;
use crate::text::{chars_eq, chars_of, err};
use crate::types::{Type, Value};

verus! {

/// The largest response frame, in bytes.
pub const RESPONSE_LIMIT: usize = 268435456;

/// The longest string of a frame, in bytes of UTF-8.
pub const STRING_LIMIT: usize = 65536;

/// The bytes of one execution record: status, type, value bits, steps.
pub const RECORD_BYTES: usize = 18;

/// The bytes of one summary: ten little-endian words.
pub const SUMMARY_BYTES: usize = 80;

/// A batch for the GPU interpreter: every function runs on every input.
#[derive(Clone, Debug)]
pub struct Request {
    pub functions: Vec<Function>,
    pub inputs: Vec<Vec<Value>>,
    pub max_steps: u64,
    pub memory_budget: u64,
}

/// What the device reports of a batch. The five times are in milliseconds,
/// each held as the bit pattern of an IEEE-754 double.
#[derive(Clone, Debug, PartialEq, Eq)]
pub struct Telemetry {
    pub setup_ms_bits: u64,
    pub transfer_ms_bits: u64,
    pub kernel_ms_bits: u64,
    pub total_ms_bits: u64,
    pub host_total_ms_bits: u64,
    pub driver: i32,
    pub runtime: i32,
    pub compute_capability: String,
    pub device: String,
    pub compiler: String,
    pub allocated_bytes: u64,
}

/// The executions of every program on every case, and the telemetry.
#[derive(Clone, Debug)]
pub struct Evaluation {
    pub executions: Vec<Vec<Execution>>,
    pub telemetry: Telemetry,
}

/// Search totals, ten words per program, and the telemetry.
#[derive(Clone, Debug)]
pub struct SummaryEvaluation {
    pub summaries: Vec<[u64; 10]>,
    pub telemetry: Telemetry,
}

pub struct TelemetryM {
    pub times: Seq<u64>,
    pub driver: i32,
    pub runtime: i32,
    pub strings: Seq<Seq<char>>,
    pub allocated_bytes: u64,
}

pub struct EvaluationM {
    pub executions: Seq<Seq<ExecutionM>>,
    pub telemetry: TelemetryM,
}

pub struct SummaryM {
    pub summaries: Seq<Seq<u64>>,
    pub telemetry: TelemetryM,
}

impl View for Telemetry {
    type V = TelemetryM;

    open spec fn view(&self) -> TelemetryM {
        TelemetryM {
            times: seq![
                self.setup_ms_bits,
                self.transfer_ms_bits,
                self.kernel_ms_bits,
                self.total_ms_bits,
                self.host_total_ms_bits,
            ],
            driver: self.driver,
            runtime: self.runtime,
            strings: seq![self.compute_capability@, self.device@, self.compiler@],
            allocated_bytes: self.allocated_bytes,
        }
    }
}

pub open spec fn row_view(row: Vec<Execution>) -> Seq<ExecutionM> {
    row@.map_values(|e: Execution| e@)
}

impl View for Evaluation {
    type V = EvaluationM;

    open spec fn view(&self) -> EvaluationM {
        EvaluationM {
            executions: self.executions@.map_values(|r: Vec<Execution>| row_view(r)),
            telemetry: self.telemetry@,
        }
    }
}

impl View for SummaryEvaluation {
    type V = SummaryM;

    open spec fn view(&self) -> SummaryM {
        SummaryM {
            summaries: self.summaries@.map_values(|a: [u64; 10]| a@),
            telemetry: self.telemetry@,
        }
    }
}

/// The GPU interpreter is not part of this build: every request is
/// answered with an error that says so.
pub fn evaluate(request: &Request) -> (r: Result<Evaluation, String>)
    ensures
        r matches Err(e) && e@
            == "CUDA backend unavailable: rebuild with --features cuda on a CUDA toolkit machine"@,
{
    err("CUDA backend unavailable: rebuild with --features cuda on a CUDA toolkit machine")
}

// ---------------------------------------------------------------------------
// The frame, as bytes.

/// The eight version bytes at the start of every frame: "GRCUDA01".
pub open spec fn magic() -> Seq<u8> {
    seq![71u8, 82u8, 67u8, 85u8, 68u8, 65u8, 48u8, 49u8]
}

pub open spec fn le32(x: u32) -> Seq<u8> {
    spec_u32_to_le_bytes(x)
}

pub open spec fn le64(x: u64) -> Seq<u8> {
    spec_u64_to_le_bytes(x)
}

/// A time is accepted when its double is finite and not below zero
/// (negative zero is not below zero).
pub open spec fn timing_ok(x: u64) -> bool {
    &&& (x >> 52u64) & 0x7ffu64 != 0x7ffu64
    &&& (x < 0x8000_0000_0000_0000u64 || x == 0x8000_0000_0000_0000u64)
}

/// A string on the wire: its UTF-8 length as four bytes, then the UTF-8.
pub open spec fn string_bytes(s: Seq<char>) -> Seq<u8> {
    le32(encode_utf8(s).len() as u32) + encode_utf8(s)
}

pub open spec fn string_ok(s: Seq<char>) -> bool {
    encode_utf8(s).len() <= STRING_LIMIT
}

pub open spec fn telemetry_wf(t: TelemetryM) -> bool {
    t.times.len() == 5 && t.strings.len() == 3
}

pub open spec fn telemetry_error(t: TelemetryM) -> Option<Seq<char>> {
    if !(forall|i: int| 0 <= i < 5 ==> timing_ok(#[trigger] t.times[i])) {
        Some("invalid CUDA timing"@)
    } else if !(forall|i: int| 0 <= i < 3 ==> string_ok(#[trigger] t.strings[i])) {
        Some("CUDA protocol string exceeds limit"@)
    } else {
        None
    }
}

pub open spec fn telemetry_bytes(t: TelemetryM) -> Seq<u8> {
    le64(t.times[0]) + le64(t.times[1]) + le64(t.times[2]) + le64(t.times[3]) + le64(t.times[4])
        + le32(t.driver as u32) + le32(t.runtime as u32) + le64(t.allocated_bytes)
        + string_bytes(t.strings[0]) + string_bytes(t.strings[1]) + string_bytes(t.strings[2])
}

/// The code of an integer type in a record; `Bool` has none.
pub open spec fn type_code(t: Type) -> u8 {
    match t {
        Type::Bool => 0,
        Type::U8 => 1,
        Type::U16 => 2,
        Type::U32 => 3,
        Type::U64 => 4,
        Type::I8 => 5,
        Type::I16 => 6,
        Type::I32 => 7,
        Type::I64 => 8,
    }
}

pub open spec fn code_type(c: u8) -> Type {
    if c == 1 {
        Type::U8
    } else if c == 2 {
        Type::U16
    } else if c == 3 {
        Type::U32
    } else if c == 4 {
        Type::U64
    } else if c == 5 {
        Type::I8
    } else if c == 6 {
        Type::I16
    } else if c == 7 {
        Type::I32
    } else {
        Type::I64
    }
}

pub open spec fn timeout_reason() -> Seq<char> {
    "step budget exhausted"@
}

pub open spec fn zero_reason() -> Seq<char> {
    "division by zero"@
}

pub open spec fn overflow_reason() -> Seq<char> {
    "signed division overflow"@
}

/// Why an outcome has no record, if it has none.
pub open spec fn record_error(o: OutcomeM) -> Option<Seq<char>> {
    match o {
        OutcomeM::Completed(v) => if v.ty is Bool {
            Some("invalid CUDA result type"@)
        } else if v.bits & !v.ty.spec_mask() != 0 {
            Some("invalid CUDA result bits"@)
        } else {
            None
        },
        OutcomeM::Timeout(m) => if m == timeout_reason() {
            None
        } else {
            Some("unsupported CUDA outcome in response"@)
        },
        OutcomeM::Trap(m) => if m == zero_reason() || m == overflow_reason() {
            None
        } else {
            Some("unsupported CUDA outcome in response"@)
        },
        OutcomeM::Invalid(_) => Some("unsupported CUDA outcome in response"@),
    }
}

/// The status byte, type byte and value bits of an outcome's record.
pub open spec fn record_fields(o: OutcomeM) -> (u8, u8, u64) {
    match o {
        OutcomeM::Completed(v) => (0, type_code(v.ty), v.bits),
        OutcomeM::Timeout(_) => (1, 0, 0),
        OutcomeM::Trap(m) => if m == zero_reason() {
            (2, 0, 0)
        } else {
            (3, 0, 0)
        },
        OutcomeM::Invalid(_) => (4, 0, 0),
    }
}

pub open spec fn record_bytes(e: ExecutionM) -> Seq<u8> {
    let (status, ty, bits) = record_fields(e.outcome);
    seq![status, ty] + le64(bits) + le64(e.steps)
}

pub open spec fn row_bytes(row: Seq<ExecutionM>) -> Seq<u8>
    decreases row.len(),
{
    if row.len() == 0 {
        seq![]
    } else {
        row_bytes(row.drop_last()) + record_bytes(row.last())
    }
}

pub open spec fn rows_bytes(rows: Seq<Seq<ExecutionM>>) -> Seq<u8>
    decreases rows.len(),
{
    if rows.len() == 0 {
        seq![]
    } else {
        rows_bytes(rows.drop_last()) + row_bytes(rows.last())
    }
}

/// The first execution from `i` on that has no record.
pub open spec fn row_error_from(row: Seq<ExecutionM>, i: int) -> Option<Seq<char>>
    decreases row.len() - i,
{
    if i < 0 || i >= row.len() {
        None
    } else {
        match record_error(row[i].outcome) {
            Some(e) => Some(e),
            None => row_error_from(row, i + 1),
        }
    }
}

/// The first row from `j` on that is ragged or holds an execution
/// without a record.
pub open spec fn rows_error_from(rows: Seq<Seq<ExecutionM>>, j: int, cases: int) -> Option<
    Seq<char>,
>
    decreases rows.len() - j,
{
    if j < 0 || j >= rows.len() {
        None
    } else if rows[j].len() != cases {
        Some("ragged CUDA response"@)
    } else {
        match row_error_from(rows[j], 0) {
            Some(e) => Some(e),
            None => rows_error_from(rows, j + 1, cases),
        }
    }
}

pub open spec fn cases_of(rows: Seq<Seq<ExecutionM>>) -> int {
    if rows.len() == 0 {
        0
    } else {
        rows[0].len() as int
    }
}

/// The header of a detailed frame, before its dimensions.
pub open spec fn frame_head(tag: u8, t: TelemetryM) -> Seq<u8> {
    magic() + seq![tag] + telemetry_bytes(t)
}

/// The frame of a result, or the error that keeps it from being sent.
pub open spec fn spec_encode(result: Result<EvaluationM, Seq<char>>) -> Result<Seq<u8>, Seq<char>> {
    match result {
        Err(e) => if string_ok(e) {
            Ok(magic() + seq![0u8] + string_bytes(e))
        } else {
            Err("CUDA protocol string exceeds limit"@)
        },
        Ok(m) => match telemetry_error(m.telemetry) {
            Some(e) => Err(e),
            None => {
                let programs = m.executions.len() as int;
                let cases = cases_of(m.executions);
                let head = frame_head(1, m.telemetry).len() + 8;
                let size = programs * cases * RECORD_BYTES + head;
                if programs == 0 || cases == 0 || programs > u32::MAX || cases > u32::MAX {
                    Err("invalid CUDA response dimensions"@)
                } else if size > usize::MAX {
                    Err("CUDA response size overflow"@)
                } else if size > RESPONSE_LIMIT {
                    Err("CUDA response exceeds protocol limit"@)
                } else {
                    match rows_error_from(m.executions, 0, cases) {
                        Some(e) => Err(e),
                        None => Ok(
                            frame_head(1, m.telemetry) + le32(programs as u32) + le32(
                                cases as u32,
                            ) + rows_bytes(m.executions),
                        ),
                    }
                }
            },
        },
    }
}

pub open spec fn bytes_result(r: Result<Vec<u8>, String>) -> Result<Seq<u8>, Seq<char>> {
    match r {
        Ok(b) => Ok(b@),
        Err(e) => Err(e@),
    }
}

pub open spec fn evaluation_result(r: Result<Evaluation, String>) -> Result<EvaluationM, Seq<char>> {
    match r {
        Ok(v) => Ok(v@),
        Err(e) => Err(e@),
    }
}

// ---------------------------------------------------------------------------
// Writing.

fn push_bytes(out: &mut Vec<u8>, b: &[u8])
    ensures
        final(out)@ == old(out)@ + b@,
{
    let mut i: usize = 0;
    while i < b.len()
        invariant
            0 <= i <= b@.len(),
            out@ == old(out)@ + b@.subrange(0, i as int),
        decreases b@.len() - i,
    {
        out.push(b[i]);
        i += 1;
        assert(b@.subrange(0, i as int) == b@.subrange(0, i - 1 as int).push(b@[i - 1]));
    }
    assert(b@.subrange(0, b@.len() as int) == b@);
}

fn push_u32(out: &mut Vec<u8>, x: u32)
    ensures
        final(out)@ == old(out)@ + le32(x),
{
    let b = u32_to_le_bytes(x);
    push_bytes(out, b.as_slice());
}

fn push_u64(out: &mut Vec<u8>, x: u64)
    ensures
        final(out)@ == old(out)@ + le64(x),
{
    let b = u64_to_le_bytes(x);
    push_bytes(out, b.as_slice());
}

fn write_string(out: &mut Vec<u8>, value: &String) -> (r: Result<(), String>)
    ensures
        r is Ok <==> string_ok(value@),
        r matches Err(e) ==> e@ == "CUDA protocol string exceeds limit"@,
        r is Ok ==> final(out)@ == old(out)@ + string_bytes(value@),
{
    let bytes = value.as_str().as_bytes();
    if bytes.len() > STRING_LIMIT {
        return err("CUDA protocol string exceeds limit");
    }
    push_u32(out, bytes.len() as u32);
    push_bytes(out, bytes);
    Ok(())
}

fn timing_valid(x: u64) -> (r: bool)
    ensures
        r == timing_ok(x),
{
    (x >> 52u64) & 0x7ffu64 != 0x7ffu64 && (x < 0x8000_0000_0000_0000u64 || x
        == 0x8000_0000_0000_0000u64)
}

fn write_telemetry(out: &mut Vec<u8>, t: &Telemetry) -> (r: Result<(), String>)
    ensures
        r is Ok <==> telemetry_error(t@) is None,
        r matches Err(e) ==> telemetry_error(t@) == Some(e@),
        r is Ok ==> final(out)@ == old(out)@ + telemetry_bytes(t@),
{
    let ghost tv = t@;
    if !timing_valid(t.setup_ms_bits) || !timing_valid(t.transfer_ms_bits) || !timing_valid(
        t.kernel_ms_bits,
    ) || !timing_valid(t.total_ms_bits) || !timing_valid(t.host_total_ms_bits) {
        proof {
            assert(!(forall|i: int| 0 <= i < 5 ==> timing_ok(#[trigger] tv.times[i]))) by {
                if forall|i: int| 0 <= i < 5 ==> timing_ok(#[trigger] tv.times[i]) {
                    assert(timing_ok(tv.times[0]));
                    assert(timing_ok(tv.times[1]));
                    assert(timing_ok(tv.times[2]));
                    assert(timing_ok(tv.times[3]));
                    assert(timing_ok(tv.times[4]));
                }
            }
        }
        return err("invalid CUDA timing");
    }
    assert(forall|i: int| 0 <= i < 5 ==> timing_ok(#[trigger] tv.times[i]));
    let ghost start = out@;
    push_u64(out, t.setup_ms_bits);
    push_u64(out, t.transfer_ms_bits);
    push_u64(out, t.kernel_ms_bits);
    push_u64(out, t.total_ms_bits);
    push_u64(out, t.host_total_ms_bits);
    push_u32(out, t.driver as u32);
    push_u32(out, t.runtime as u32);
    push_u64(out, t.allocated_bytes);
    let a = write_string(out, &t.compute_capability);
    if a.is_err() {
        assert(!string_ok(tv.strings[0]));
        return err("CUDA protocol string exceeds limit");
    }
    let b = write_string(out, &t.device);
    if b.is_err() {
        assert(!string_ok(tv.strings[1]));
        return err("CUDA protocol string exceeds limit");
    }
    let c = write_string(out, &t.compiler);
    if c.is_err() {
        assert(!string_ok(tv.strings[2]));
        return err("CUDA protocol string exceeds limit");
    }
    assert(forall|i: int| 0 <= i < 3 ==> string_ok(#[trigger] tv.strings[i]));
    assert(out@ =~= start + telemetry_bytes(tv));
    Ok(())
}

/// `s` holds exactly the characters of `lit`.
fn text_is(s: &String, lit: &str) -> (r: bool)
    ensures
        r == (s@ == lit@),
{
    let a = chars_of(s.as_str());
    let b = chars_of(lit);
    chars_eq(&a, &b)
}

fn type_byte(t: Type) -> (r: u8)
    ensures
        r == type_code(t),
{
    match t {
        Type::Bool => 0,
        Type::U8 => 1,
        Type::U16 => 2,
        Type::U32 => 3,
        Type::U64 => 4,
        Type::I8 => 5,
        Type::I16 => 6,
        Type::I32 => 7,
        Type::I64 => 8,
    }
}

/// Appends the record of `e`, or says why it has none.
fn write_record(out: &mut Vec<u8>, e: &Execution) -> (r: Result<(), String>)
    ensures
        r is Ok <==> record_error(e@.outcome) is None,
        r matches Err(m) ==> record_error(e@.outcome) == Some(m@),
        r is Ok ==> final(out)@ == old(out)@ + record_bytes(e@),
{
    let (status, ty, bits): (u8, u8, u64) = match &e.outcome {
        Outcome::Completed(value) => {
            if value.ty == Type::Bool {
                return err("invalid CUDA result type");
            }
            if value.bits & !value.ty.mask() != 0 {
                return err("invalid CUDA result bits");
            }
            (0, type_byte(value.ty), value.bits)
        },
        Outcome::Timeout(reason) => {
            if !text_is(reason, "step budget exhausted") {
                return err("unsupported CUDA outcome in response");
            }
            (1, 0, 0)
        },
        Outcome::Trap(reason) => {
            if text_is(reason, "division by zero") {
                (2, 0, 0)
            } else if text_is(reason, "signed division overflow") {
                (3, 0, 0)
            } else {
                return err("unsupported CUDA outcome in response");
            }
        },
        Outcome::Invalid(_) => {
            return err("unsupported CUDA outcome in response");
        },
    };
    let ghost start = out@;
    out.push(status);
    out.push(ty);
    push_u64(out, bits);
    push_u64(out, e.steps);
    assert(out@ =~= start + record_bytes(e@));
    Ok(())
}

/// Appends the row's records, or says which of its executions has none.
fn write_row(out: &mut Vec<u8>, row: &Vec<Execution>) -> (r: Result<(), String>)
    ensures
        r is Ok <==> row_error_from(row_view(*row), 0) is None,
        r matches Err(m) ==> row_error_from(row_view(*row), 0) == Some(m@),
        r is Ok ==> final(out)@ == old(out)@ + row_bytes(row_view(*row)),
{
    let ghost rv = row_view(*row);
    let ghost start = out@;
    let mut i: usize = 0;
    while i < row.len()
        invariant
            0 <= i <= row@.len(),
            rv == row_view(*row),
            rv.len() == row@.len(),
            out@ == start + row_bytes(rv.take(i as int)),
            row_error_from(rv, 0) == row_error_from(rv, i as int),
        decreases row@.len() - i,
    {
        let e = &row[i];
        assert(rv[i as int] == e@);
        let w = write_record(out, e);
        if w.is_err() {
            return w;
        }
        assert(rv.take(i + 1 as int).drop_last() =~= rv.take(i as int));
        i += 1;
    }
    assert(rv.take(i as int) =~= rv);
    Ok(())
}

/// The frame of a result: an error frame, or the detailed frame of an
/// evaluation; or the error that keeps it from being framed.
pub fn encode_response(result: &Result<Evaluation, String>) -> (r: Result<Vec<u8>, String>)
    ensures
        bytes_result(r) == spec_encode(evaluation_result(*result)),
{
    let mut out = magic_bytes();
    let evaluation = match result {
        Err(error) => {
            out.push(0);
            let ghost head = out@;
            assert(head =~= magic() + seq![0u8]);
            let w = write_string(&mut out, error);
            if w.is_err() {
                return err("CUDA protocol string exceeds limit");
            }
            return Ok(out);
        },
        Ok(evaluation) => evaluation,
    };
    let ghost m = evaluation@;
    out.push(1);
    let w = write_telemetry(&mut out, &evaluation.telemetry);
    match w {
        Err(e) => {
            return Err(e);
        },
        Ok(_) => {},
    }
    assert(out@ =~= frame_head(1, m.telemetry));
    let programs = evaluation.executions.len();
    let cases = if programs == 0 {
        0
    } else {
        evaluation.executions[0].len()
    };
    assert(m.executions.len() == programs);
    assert(programs > 0 ==> m.executions[0].len() == cases);
    if programs == 0 || cases == 0 || programs > 4294967295 || cases > 4294967295 {
        return err("invalid CUDA response dimensions");
    }
    push_u32(&mut out, programs as u32);
    push_u32(&mut out, cases as u32);
    proof {
        lemma_auto_spec_u32_to_from_le_bytes();
    }
    assert(out@ =~= frame_head(1, m.telemetry) + le32(programs as u32) + le32(cases as u32));
    let head = out.len();
    let size = match programs.checked_mul(cases) {
        None => None,
        Some(n) => match n.checked_mul(RECORD_BYTES) {
            None => None,
            Some(n) => n.checked_add(head),
        },
    };
    proof {
        lemma_mul_grows(programs as int, cases as int, RECORD_BYTES as int);
    }
    let size = match size {
        None => {
            return err("CUDA response size overflow");
        },
        Some(n) => n,
    };
    if size > RESPONSE_LIMIT {
        return err("CUDA response exceeds protocol limit");
    }
    let ghost rows = m.executions;
    let ghost head_bytes = out@;
    assert(spec_encode(evaluation_result(*result)) == match rows_error_from(rows, 0, cases as int) {
        Some(e) => Err(e),
        None => Ok(head_bytes + rows_bytes(rows)),
    });
    let mut j: usize = 0;
    while j < programs
        invariant
            0 <= j <= programs,
            programs == evaluation.executions@.len(),
            rows == evaluation@.executions,
            rows.len() == programs,
            cases == cases_of(rows),
            out@ == head_bytes + rows_bytes(rows.take(j as int)),
            rows_error_from(rows, 0, cases as int) == rows_error_from(rows, j as int, cases as int),
            spec_encode(evaluation_result(*result)) == match rows_error_from(rows, 0, cases as int) {
                Some(e) => Err(e),
                None => Ok(head_bytes + rows_bytes(rows)),
            },
        decreases programs - j,
    {
        let row = &evaluation.executions[j];
        assert(rows[j as int] == row_view(*row));
        if row.len() != cases {
            return err("ragged CUDA response");
        }
        let w = write_row(&mut out, row);
        match w {
            Err(e) => {
                return Err(e);
            },
            Ok(_) => {},
        }
        assert(rows.take(j + 1 as int).drop_last() =~= rows.take(j as int));
        j += 1;
    }
    assert(rows.take(j as int) =~= rows);
    Ok(out)
}

proof fn lemma_mul_grows(a: int, b: int, c: int)
    requires
        a >= 1,
        b >= 1,
        c >= 1,
    ensures
        a * b >= a,
        a * b * c >= a * b,
        a * b <= a * b * c,
{
    assert(a * b >= a) by (nonlinear_arith)
        requires
            a >= 1,
            b >= 1,
    ;
    assert(a * b * c >= a * b) by (nonlinear_arith)
        requires
            a * b >= 1,
            c >= 1,
    ;
}

fn magic_bytes() -> (r: Vec<u8>)
    ensures
        r@ == magic(),
{
    let r = vec![71u8, 82u8, 67u8, 85u8, 68u8, 65u8, 48u8, 49u8];
    assert(r@ =~= magic());
    r
}

// ---------------------------------------------------------------------------
// Reading.

pub open spec fn truncated() -> Seq<char> {
    "truncated CUDA response"@
}

pub open spec fn read_u32(b: Seq<u8>, p: int) -> Result<(u32, int), Seq<char>> {
    if 0 <= p && p + 4 <= b.len() {
        Ok((spec_u32_from_le_bytes(b.subrange(p, p + 4)), p + 4))
    } else {
        Err(truncated())
    }
}

pub open spec fn read_u64(b: Seq<u8>, p: int) -> Result<(u64, int), Seq<char>> {
    if 0 <= p && p + 8 <= b.len() {
        Ok((spec_u64_from_le_bytes(b.subrange(p, p + 8)), p + 8))
    } else {
        Err(truncated())
    }
}

pub open spec fn read_timing(b: Seq<u8>, p: int) -> Result<(u64, int), Seq<char>> {
    match read_u64(b, p) {
        Err(e) => Err(e),
        Ok((x, q)) => if timing_ok(x) {
            Ok((x, q))
        } else {
            Err("invalid CUDA timing"@)
        },
    }
}

pub open spec fn read_string(b: Seq<u8>, p: int) -> Result<(Seq<char>, int), Seq<char>> {
    match read_u32(b, p) {
        Err(e) => Err(e),
        Ok((n, q)) => if n > STRING_LIMIT {
            Err("CUDA protocol string exceeds limit"@)
        } else if q + n > b.len() {
            Err(truncated())
        } else if !valid_utf8(b.subrange(q, q + n)) {
            Err("invalid UTF-8 in CUDA response"@)
        } else {
            Ok((decode_utf8(b.subrange(q, q + n)), q + n))
        },
    }
}

/// The five times, read in order from `p`.
pub open spec fn read_times(b: Seq<u8>, p: int, k: nat) -> Result<(Seq<u64>, int), Seq<char>>
    decreases k,
{
    if k == 0 {
        Ok((seq![], p))
    } else {
        match read_times(b, p, (k - 1) as nat) {
            Err(e) => Err(e),
            Ok((ts, q)) => match read_timing(b, q) {
                Err(e) => Err(e),
                Ok((x, r)) => Ok((ts.push(x), r)),
            },
        }
    }
}

/// The three strings, read in order from `p`.
pub open spec fn read_strings(b: Seq<u8>, p: int, k: nat) -> Result<(Seq<Seq<char>>, int), Seq<char>>
    decreases k,
{
    if k == 0 {
        Ok((seq![], p))
    } else {
        match read_strings(b, p, (k - 1) as nat) {
            Err(e) => Err(e),
            Ok((ss, q)) => match read_string(b, q) {
                Err(e) => Err(e),
                Ok((s, r)) => Ok((ss.push(s), r)),
            },
        }
    }
}

pub open spec fn read_telemetry(b: Seq<u8>, p: int) -> Result<(TelemetryM, int), Seq<char>> {
    match read_times(b, p, 5) {
        Err(e) => Err(e),
        Ok((times, p1)) => match read_u32(b, p1) {
            Err(e) => Err(e),
            Ok((driver, p2)) => match read_u32(b, p2) {
                Err(e) => Err(e),
                Ok((runtime, p3)) => match read_u64(b, p3) {
                    Err(e) => Err(e),
                    Ok((allocated, p4)) => match read_strings(b, p4, 3) {
                        Err(e) => Err(e),
                        Ok((strings, p5)) => Ok(
                            (
                                TelemetryM {
                                    times,
                                    driver: driver as i32,
                                    runtime: runtime as i32,
                                    strings,
                                    allocated_bytes: allocated,
                                },
                                p5,
                            ),
                        ),
                    },
                },
            },
        },
    }
}

/// The execution of one record, or why the record is malformed.
pub open spec fn decode_record(r: Seq<u8>) -> Result<ExecutionM, Seq<char>> {
    let bits = spec_u64_from_le_bytes(r.subrange(2, 10));
    let steps = spec_u64_from_le_bytes(r.subrange(10, 18));
    if r[0] == 0 {
        if r[1] == 0 || r[1] > 8 {
            Err("invalid CUDA result type"@)
        } else if bits & !code_type(r[1]).spec_mask() != 0 {
            Err("invalid CUDA result bits"@)
        } else {
            Ok(
                ExecutionM {
                    outcome: OutcomeM::Completed(crate::types::spec_value(code_type(r[1]), bits)),
                    steps,
                },
            )
        }
    } else if r[1] != 0 || bits != 0 {
        Err("invalid CUDA noncompleted payload"@)
    } else if r[0] == 1 {
        Ok(ExecutionM { outcome: OutcomeM::Timeout(timeout_reason()), steps })
    } else if r[0] == 2 {
        Ok(ExecutionM { outcome: OutcomeM::Trap(zero_reason()), steps })
    } else if r[0] == 3 {
        Ok(ExecutionM { outcome: OutcomeM::Trap(overflow_reason()), steps })
    } else {
        Err("invalid CUDA outcome tag"@)
    }
}

pub open spec fn rec_at(b: Seq<u8>, base: int, k: int) -> Seq<u8> {
    b.subrange(base + k * RECORD_BYTES, base + k * RECORD_BYTES + RECORD_BYTES)
}

/// The first malformed record from the `k`th on.
pub open spec fn records_error_from(b: Seq<u8>, base: int, k: int, total: int) -> Option<
    Seq<char>,
>
    decreases total - k,
{
    if k < 0 || k >= total {
        None
    } else {
        match decode_record(rec_at(b, base, k)) {
            Err(e) => Some(e),
            Ok(_) => records_error_from(b, base, k + 1, total),
        }
    }
}

pub open spec fn decoded_rows(b: Seq<u8>, base: int, programs: int, cases: int) -> Seq<
    Seq<ExecutionM>,
> {
    Seq::new(
        programs as nat,
        |p: int|
            Seq::new(
                cases as nat,
                |c: int|
                    match decode_record(rec_at(b, base, p * cases + c)) {
                        Ok(e) => e,
                        Err(_) => arbitrary(),
                    },
            ),
    )
}

/// The result a frame carries, or why the frame is malformed.
pub open spec fn spec_decode(b: Seq<u8>) -> Result<EvaluationM, Seq<char>> {
    if b.len() > RESPONSE_LIMIT {
        Err("CUDA response exceeds protocol limit"@)
    } else if b.len() < 8 {
        Err(truncated())
    } else if b.subrange(0, 8) != magic() {
        Err("unsupported CUDA response version"@)
    } else if b.len() < 9 {
        Err(truncated())
    } else if b[8] == 0 {
        match read_string(b, 9) {
            Err(e) => Err(e),
            Ok((s, p)) => if p != b.len() {
                Err("trailing CUDA error response bytes"@)
            } else {
                Err(s)
            },
        }
    } else if b[8] != 1 {
        Err("invalid CUDA response tag"@)
    } else {
        match read_telemetry(b, 9) {
            Err(e) => Err(e),
            Ok((t, p)) => match read_u32(b, p) {
                Err(e) => Err(e),
                Ok((programs, p1)) => match read_u32(b, p1) {
                    Err(e) => Err(e),
                    Ok((cases, p2)) => {
                        let size = programs * cases * RECORD_BYTES;
                        if size > usize::MAX {
                            Err("CUDA response size overflow"@)
                        } else if programs == 0 || cases == 0 || size != b.len() - p2 {
                            Err("CUDA response dimensions or length mismatch"@)
                        } else {
                            match records_error_from(b, p2, 0, programs * cases) {
                                Some(e) => Err(e),
                                None => Ok(
                                    EvaluationM {
                                        executions: decoded_rows(b, p2, programs as int, cases as int),
                                        telemetry: t,
                                    },
                                ),
                            }
                        }
                    },
                },
            },
        }
    }
}

pub open spec fn at_result<T>(r: Result<(T, usize), String>) -> Result<(T, int), Seq<char>> {
    match r {
        Ok((x, p)) => Ok((x, p as int)),
        Err(e) => Err(e@),
    }
}

/// `String::from_utf8`: the string whose UTF-8 encoding is `bytes`, when
/// the bytes are valid UTF-8, and nothing otherwise.
#[verifier::external_body]
fn utf8_string(bytes: Vec<u8>) -> (r: Option<String>)
    ensures
        r is Some <==> valid_utf8(bytes@),
        r matches Some(s) ==> s@ == decode_utf8(bytes@),
{
    String::from_utf8(bytes).ok()
}

pub(crate) fn copy_span(b: &[u8], p: usize, n: usize) -> (r: Vec<u8>)
    requires
        p + n <= b@.len(),
    ensures
        r@ == b@.subrange(p as int, p + n),
{
    let mut v: Vec<u8> = Vec::new();
    let mut i: usize = 0;
    while i < n
        invariant
            0 <= i <= n,
            p + n <= b@.len(),
            v@ == b@.subrange(p as int, p + i),
        decreases n - i,
    {
        assert(b@.len() == b.len());
        v.push(b[p + i]);
        i += 1;
        assert(v@ =~= b@.subrange(p as int, p + i));
    }
    v
}

fn get_u32(b: &[u8], p: usize) -> (r: Result<(u32, usize), String>)
    ensures
        at_result(r) == read_u32(b@, p as int),
{
    if p > b.len() || b.len() - p < 4 {
        return err("truncated CUDA response");
    }
    let v = copy_span(b, p, 4);
    Ok((u32_from_le_bytes(v.as_slice()), p + 4))
}

fn get_u64(b: &[u8], p: usize) -> (r: Result<(u64, usize), String>)
    ensures
        at_result(r) == read_u64(b@, p as int),
{
    if p > b.len() || b.len() - p < 8 {
        return err("truncated CUDA response");
    }
    let v = copy_span(b, p, 8);
    Ok((u64_from_le_bytes(v.as_slice()), p + 8))
}

fn get_timing(b: &[u8], p: usize) -> (r: Result<(u64, usize), String>)
    ensures
        at_result(r) == read_timing(b@, p as int),
{
    let (x, q) = match get_u64(b, p) {
        Err(e) => {
            return Err(e);
        },
        Ok(v) => v,
    };
    if !timing_valid(x) {
        return err("invalid CUDA timing");
    }
    Ok((x, q))
}

fn get_string(b: &[u8], p: usize) -> (r: Result<(String, usize), String>)
    ensures
        match r {
            Ok((s, q)) => read_string(b@, p as int) == Ok::<(Seq<char>, int), Seq<char>>((s@, q as int)),
            Err(e) => read_string(b@, p as int) == Err::<(Seq<char>, int), Seq<char>>(e@),
        },
{
    let (n, q) = match get_u32(b, p) {
        Err(e) => {
            return Err(e);
        },
        Ok(v) => v,
    };
    if n as usize > STRING_LIMIT {
        return err("CUDA protocol string exceeds limit");
    }
    let n = n as usize;
    if q > b.len() || b.len() - q < n {
        return err("truncated CUDA response");
    }
    let v = copy_span(b, q, n);
    match utf8_string(v) {
        None => err("invalid UTF-8 in CUDA response"),
        Some(s) => Ok((s, q + n)),
    }
}

fn get_telemetry(b: &[u8], p: usize) -> (r: Result<(Telemetry, usize), String>)
    ensures
        match r {
            Ok((t, q)) => read_telemetry(b@, p as int) == Ok::<(TelemetryM, int), Seq<char>>((t@, q as int)),
            Err(e) => read_telemetry(b@, p as int) is Err && read_telemetry(b@, p as int)->Err_0 == e@,
        },
{
    let ghost bv = b@;
    let (setup, p1) = match get_timing(b, p) {
        Err(e) => {
            return Err(e);
        },
        Ok(v) => v,
    };
    assert(read_times(bv, p as int, 1) == Ok::<(Seq<u64>, int), Seq<char>>((seq![setup], p1 as int))) by {
        reveal_with_fuel(read_times, 2);
        assert(seq![].push(setup) =~= seq![setup]);
    }
    let (transfer, p2) = match get_timing(b, p1) {
        Err(e) => {
            assert(read_times(bv, p as int, 2) == Err::<(Seq<u64>, int), Seq<char>>(e@));
            assert(read_times(bv, p as int, 5) == Err::<(Seq<u64>, int), Seq<char>>(e@)) by {
                reveal_with_fuel(read_times, 4);
            }
            return Err(e);
        },
        Ok(v) => v,
    };
    assert(read_times(bv, p as int, 2) == Ok::<(Seq<u64>, int), Seq<char>>((seq![setup, transfer], p2 as int))) by {
        assert(seq![setup].push(transfer) =~= seq![setup, transfer]);
    }
    let (kernel, p3) = match get_timing(b, p2) {
        Err(e) => {
            assert(read_times(bv, p as int, 3) == Err::<(Seq<u64>, int), Seq<char>>(e@));
            assert(read_times(bv, p as int, 5) == Err::<(Seq<u64>, int), Seq<char>>(e@)) by {
                reveal_with_fuel(read_times, 3);
            }
            return Err(e);
        },
        Ok(v) => v,
    };
    assert(read_times(bv, p as int, 3) == Ok::<(Seq<u64>, int), Seq<char>>((seq![setup, transfer, kernel], p3 as int))) by {
        assert(seq![setup, transfer].push(kernel) =~= seq![setup, transfer, kernel]);
    }
    let (total, p4) = match get_timing(b, p3) {
        Err(e) => {
            assert(read_times(bv, p as int, 4) == Err::<(Seq<u64>, int), Seq<char>>(e@));
            assert(read_times(bv, p as int, 5) == Err::<(Seq<u64>, int), Seq<char>>(e@));
            return Err(e);
        },
        Ok(v) => v,
    };
    assert(read_times(bv, p as int, 4) == Ok::<(Seq<u64>, int), Seq<char>>((seq![setup, transfer, kernel, total], p4 as int))) by {
        assert(seq![setup, transfer, kernel].push(total) =~= seq![setup, transfer, kernel, total]);
    }
    let (host, p5) = match get_timing(b, p4) {
        Err(e) => {
            assert(read_times(bv, p as int, 5) == Err::<(Seq<u64>, int), Seq<char>>(e@));
            return Err(e);
        },
        Ok(v) => v,
    };
    assert(read_times(bv, p as int, 5) == Ok::<(Seq<u64>, int), Seq<char>>((seq![setup, transfer, kernel, total, host], p5 as int))) by {
        assert(seq![setup, transfer, kernel, total].push(host) =~= seq![setup, transfer, kernel, total, host]);
    }
    let (driver, p6) = match get_u32(b, p5) {
        Err(e) => {
            return Err(e);
        },
        Ok(v) => v,
    };
    let (runtime, p7) = match get_u32(b, p6) {
        Err(e) => {
            return Err(e);
        },
        Ok(v) => v,
    };
    let (allocated, p8) = match get_u64(b, p7) {
        Err(e) => {
            return Err(e);
        },
        Ok(v) => v,
    };
    let (capability, p9) = match get_string(b, p8) {
        Err(e) => {
            assert(read_strings(bv, p8 as int, 3) == Err::<(Seq<Seq<char>>, int), Seq<char>>(e@)) by {
                reveal_with_fuel(read_strings, 4);
            }
            return Err(e);
        },
        Ok(v) => v,
    };
    assert(read_strings(bv, p8 as int, 1) == Ok::<(Seq<Seq<char>>, int), Seq<char>>((seq![capability@], p9 as int))) by {
        reveal_with_fuel(read_strings, 2);
        assert(seq![].push(capability@) =~= seq![capability@]);
    }
    let (device, p10) = match get_string(b, p9) {
        Err(e) => {
            assert(read_strings(bv, p8 as int, 2) == Err::<(Seq<Seq<char>>, int), Seq<char>>(e@));
            assert(read_strings(bv, p8 as int, 3) == Err::<(Seq<Seq<char>>, int), Seq<char>>(e@));
            return Err(e);
        },
        Ok(v) => v,
    };
    assert(read_strings(bv, p8 as int, 2) == Ok::<(Seq<Seq<char>>, int), Seq<char>>((seq![capability@, device@], p10 as int))) by {
        assert(seq![capability@].push(device@) =~= seq![capability@, device@]);
    }
    let (compiler, p11) = match get_string(b, p10) {
        Err(e) => {
            assert(read_strings(bv, p8 as int, 3) == Err::<(Seq<Seq<char>>, int), Seq<char>>(e@));
            return Err(e);
        },
        Ok(v) => v,
    };
    assert(read_strings(bv, p8 as int, 3) == Ok::<(Seq<Seq<char>>, int), Seq<char>>((seq![capability@, device@, compiler@], p11 as int))) by {
        assert(seq![capability@, device@].push(compiler@) =~= seq![capability@, device@, compiler@]);
    }
    let t = Telemetry {
        setup_ms_bits: setup,
        transfer_ms_bits: transfer,
        kernel_ms_bits: kernel,
        total_ms_bits: total,
        host_total_ms_bits: host,
        driver: driver as i32,
        runtime: runtime as i32,
        compute_capability: capability,
        device,
        compiler,
        allocated_bytes: allocated,
    };
    assert(t@.times =~= seq![setup, transfer, kernel, total, host]);
    assert(t@.strings =~= seq![capability@, device@, compiler@]);
    Ok((t, p11))
}

/// Byte-wise equality.
pub(crate) fn bytes_eq(a: &[u8], b: &[u8]) -> (r: bool)
    ensures
        r == (a@ == b@),
{
    if a.len() != b.len() {
        return false;
    }
    let mut i: usize = 0;
    while i < a.len()
        invariant
            0 <= i <= a@.len(),
            a@.len() == b@.len(),
            forall|j: int| 0 <= j < i ==> a@[j] == b@[j],
        decreases a@.len() - i,
    {
        if a[i] != b[i] {
            return false;
        }
        i += 1;
    }
    assert(a@ =~= b@);
    true
}

fn code_to_type(c: u8) -> (r: Type)
    ensures
        r == code_type(c),
{
    if c == 1 {
        Type::U8
    } else if c == 2 {
        Type::U16
    } else if c == 3 {
        Type::U32
    } else if c == 4 {
        Type::U64
    } else if c == 5 {
        Type::I8
    } else if c == 6 {
        Type::I16
    } else if c == 7 {
        Type::I32
    } else {
        Type::I64
    }
}

/// The execution of the record at `at`.
fn get_record(b: &[u8], at: usize) -> (r: Result<Execution, String>)
    requires
        at + RECORD_BYTES <= b@.len(),
    ensures
        match r {
            Ok(e) => decode_record(b@.subrange(at as int, at + RECORD_BYTES)) == Ok::<ExecutionM, Seq<char>>(e@),
            Err(m) => decode_record(b@.subrange(at as int, at + RECORD_BYTES)) == Err::<ExecutionM, Seq<char>>(m@),
        },
{
    let ghost rec = b@.subrange(at as int, at + RECORD_BYTES);
    assert(b@.len() == b.len());
    let v = copy_span(b, at + 2, 8);
    assert(v@ =~= rec.subrange(2, 10));
    let bits = u64_from_le_bytes(v.as_slice());
    let w = copy_span(b, at + 10, 8);
    assert(w@ =~= rec.subrange(10, 18));
    let steps = u64_from_le_bytes(w.as_slice());
    let status = b[at];
    let ty = b[at + 1];
    assert(rec[0] == status && rec[1] == ty);
    let outcome = if status == 0 {
        if ty == 0 || ty > 8 {
            return err("invalid CUDA result type");
        }
        let t = code_to_type(ty);
        if bits & !t.mask() != 0 {
            return err("invalid CUDA result bits");
        }
        Outcome::Completed(Value::new(t, bits))
    } else {
        if ty != 0 || bits != 0 {
            return err("invalid CUDA noncompleted payload");
        }
        if status == 1 {
            Outcome::Timeout("step budget exhausted".to_owned())
        } else if status == 2 {
            Outcome::Trap("division by zero".to_owned())
        } else if status == 3 {
            Outcome::Trap("signed division overflow".to_owned())
        } else {
            return err("invalid CUDA outcome tag");
        }
    };
    Ok(Execution { outcome, steps })
}

proof fn lemma_record_step(programs: int, cases: int, p: int, c: int)
    requires
        0 <= p < programs,
        0 <= c < cases,
    ensures
        0 <= p * cases + c < programs * cases,
        (p + 1) * cases == p * cases + cases,
        p * cases + cases <= programs * cases,
{
    assert(0 <= p * cases + c < programs * cases) by (nonlinear_arith)
        requires
            0 <= p < programs,
            0 <= c < cases,
    ;
    assert((p + 1) * cases == p * cases + cases) by (nonlinear_arith);
    assert(p * cases + cases <= programs * cases) by (nonlinear_arith)
        requires
            0 <= p < programs,
            0 <= c < cases,
    ;
}

/// The result a detailed frame carries: the evaluation, or the error of an
/// error frame; or why the frame is malformed.
pub fn decode_response(bytes: &[u8]) -> (r: Result<Evaluation, String>)
    ensures
        evaluation_result(r) == spec_decode(bytes@),
{
    let ghost b = bytes@;
    if bytes.len() > RESPONSE_LIMIT {
        return err("CUDA response exceeds protocol limit");
    }
    if bytes.len() < 8 {
        return err("truncated CUDA response");
    }
    let head = copy_span(bytes, 0, 8);
    let expected = magic_bytes();
    let same = bytes_eq(head.as_slice(), expected.as_slice());
    if !same {
        return err("unsupported CUDA response version");
    }
    if bytes.len() < 9 {
        return err("truncated CUDA response");
    }
    let tag = bytes[8];
    if tag == 0 {
        let (error, p) = match get_string(bytes, 9) {
            Err(e) => {
                return Err(e);
            },
            Ok(v) => v,
        };
        if p != bytes.len() {
            return err("trailing CUDA error response bytes");
        }
        return Err(error);
    }
    if tag != 1 {
        return err("invalid CUDA response tag");
    }
    let (telemetry, p) = match get_telemetry(bytes, 9) {
        Err(e) => {
            return Err(e);
        },
        Ok(v) => v,
    };
    let (programs, p1) = match get_u32(bytes, p) {
        Err(e) => {
            return Err(e);
        },
        Ok(v) => v,
    };
    let (cases, p2) = match get_u32(bytes, p1) {
        Err(e) => {
            return Err(e);
        },
        Ok(v) => v,
    };
    let programs = programs as usize;
    let cases = cases as usize;
    let size = match programs.checked_mul(cases) {
        None => None,
        Some(n) => n.checked_mul(RECORD_BYTES),
    };
    proof {
        if programs > 0 && cases > 0 {
            lemma_mul_grows(programs as int, cases as int, RECORD_BYTES as int);
        } else {
            assert(programs * cases == 0) by (nonlinear_arith)
                requires
                    programs == 0 || cases == 0,
            ;
        }
    }
    let size = match size {
        None => {
            return err("CUDA response size overflow");
        },
        Some(n) => n,
    };
    if programs == 0 || cases == 0 || size != bytes.len() - p2 {
        return err("CUDA response dimensions or length mismatch");
    }
    let ghost total = programs * cases;
    let ghost model = decoded_rows(b, p2 as int, programs as int, cases as int);
    let ghost outcome = match records_error_from(b, p2 as int, 0, total) {
        Some(e) => Err::<EvaluationM, Seq<char>>(e),
        None => Ok(EvaluationM { executions: model, telemetry: telemetry@ }),
    };
    assert(spec_decode(b) == outcome);
    let mut executions: Vec<Vec<Execution>> = Vec::new();
    let mut at: usize = p2;
    let mut k: usize = 0;
    let mut pi: usize = 0;
    while pi < programs
        invariant
            b == bytes@,
            0 <= pi <= programs,
            programs > 0,
            cases > 0,
            total == programs * cases,
            total * RECORD_BYTES == b.len() - p2,
            k == pi * cases,
            at == p2 + k * RECORD_BYTES,
            k <= total,
            model == decoded_rows(b, p2 as int, programs as int, cases as int),
            executions@.len() == pi,
            forall|q: int| 0 <= q < pi ==> row_view(#[trigger] executions@[q]) == model[q],
            records_error_from(b, p2 as int, 0, total) == records_error_from(b, p2 as int, k as int, total),
            spec_decode(b) == outcome,
            outcome == match records_error_from(b, p2 as int, 0, total) {
                Some(e) => Err::<EvaluationM, Seq<char>>(e),
                None => Ok(EvaluationM { executions: model, telemetry: telemetry@ }),
            },
            bytes@.len() == bytes.len(),
        decreases programs - pi,
    {
        let mut row: Vec<Execution> = Vec::new();
        let mut c: usize = 0;
        while c < cases
            invariant
                b == bytes@,
                0 <= pi < programs,
                0 <= c <= cases,
                total == programs * cases,
                total * RECORD_BYTES == b.len() - p2,
                k == pi * cases + c,
                at == p2 + k * RECORD_BYTES,
                k <= total,
                row@.len() == c,
                model == decoded_rows(b, p2 as int, programs as int, cases as int),
                forall|q: int| 0 <= q < c ==> (#[trigger] row@[q])@ == model[pi as int][q],
                records_error_from(b, p2 as int, 0, total) == records_error_from(b, p2 as int, k as int, total),
                spec_decode(b) == outcome,
                outcome == match records_error_from(b, p2 as int, 0, total) {
                    Some(e) => Err::<EvaluationM, Seq<char>>(e),
                    None => Ok(EvaluationM { executions: model, telemetry: telemetry@ }),
                },
                bytes@.len() == bytes.len(),
            decreases cases - c,
        {
            proof {
                lemma_record_step(programs as int, cases as int, pi as int, c as int);
                assert(k * RECORD_BYTES + RECORD_BYTES <= total * RECORD_BYTES) by (nonlinear_arith)
                    requires
                        k < total,
                ;
            }
            assert(rec_at(b, p2 as int, k as int) =~= b.subrange(at as int, at + RECORD_BYTES));
            let e = match get_record(bytes, at) {
                Err(m) => {
                    return Err(m);
                },
                Ok(e) => e,
            };
            row.push(e);
            k += 1;
            at += RECORD_BYTES;
            c += 1;
        }
        proof {
            assert(row_view(row) =~= model[pi as int]);
            assert((pi + 1) * cases == pi * cases + cases) by (nonlinear_arith);
        }
        executions.push(row);
        pi += 1;
    }
    let evaluation = Evaluation { executions, telemetry };
    assert(evaluation@.executions =~= model);
    Ok(evaluation)
}

// ---------------------------------------------------------------------------
// Summary frames.

pub open spec fn words_bytes(ws: Seq<u64>) -> Seq<u8>
    decreases ws.len(),
{
    if ws.len() == 0 {
        seq![]
    } else {
        words_bytes(ws.drop_last()) + le64(ws.last())
    }
}

pub open spec fn summaries_bytes(ss: Seq<Seq<u64>>) -> Seq<u8>
    decreases ss.len(),
{
    if ss.len() == 0 {
        seq![]
    } else {
        summaries_bytes(ss.drop_last()) + words_bytes(ss.last())
    }
}

/// The summary frame of a result, or the error that keeps it from being
/// framed. An error result is framed as in `spec_encode`.
pub open spec fn spec_encode_summary(result: Result<SummaryM, Seq<char>>) -> Result<Seq<u8>, Seq<char>> {
    match result {
        Err(e) => spec_encode(Err(e)),
        Ok(m) => match telemetry_error(m.telemetry) {
            Some(e) => Err(e),
            None => {
                let n = m.summaries.len() as int;
                let size = n * SUMMARY_BYTES + frame_head(2, m.telemetry).len() + 4;
                if n == 0 || n > u32::MAX {
                    Err("invalid summary count"@)
                } else if size > usize::MAX {
                    Err("summary size overflow"@)
                } else if size > RESPONSE_LIMIT {
                    Err("CUDA response exceeds protocol limit"@)
                } else {
                    Ok(frame_head(2, m.telemetry) + le32(n as u32) + summaries_bytes(m.summaries))
                }
            },
        },
    }
}

pub open spec fn decoded_summaries(b: Seq<u8>, base: int, count: int) -> Seq<Seq<u64>> {
    Seq::new(
        count as nat,
        |i: int|
            Seq::new(
                10,
                |w: int|
                    spec_u64_from_le_bytes(
                        b.subrange(base + i * SUMMARY_BYTES + w * 8, base + i * SUMMARY_BYTES + w * 8 + 8),
                    ),
            ),
    )
}

/// The summaries a summary frame carries, or the error of an error frame;
/// or why the frame is malformed.
pub open spec fn spec_decode_summary(b: Seq<u8>) -> Result<SummaryM, Seq<char>> {
    if b.len() > RESPONSE_LIMIT {
        Err("CUDA response exceeds protocol limit"@)
    } else if b.len() < 8 {
        Err(truncated())
    } else if b.subrange(0, 8) != magic() {
        Err("unsupported CUDA response version"@)
    } else if b.len() < 9 {
        Err(truncated())
    } else if b[8] == 0 {
        match spec_decode(b) {
            Err(e) => Err(e),
            Ok(_) => arbitrary(),
        }
    } else if b[8] != 2 {
        Err("expected CUDA summary response"@)
    } else {
        match read_telemetry(b, 9) {
            Err(e) => Err(e),
            Ok((t, p)) => match read_u32(b, p) {
                Err(e) => Err(e),
                Ok((count, p1)) => if count == 0 || count * SUMMARY_BYTES != b.len() - p1 {
                    Err("summary dimensions or length mismatch"@)
                } else {
                    Ok(SummaryM { summaries: decoded_summaries(b, p1, count as int), telemetry: t })
                },
            },
        }
    }
}

pub open spec fn summary_result(r: Result<SummaryEvaluation, String>) -> Result<SummaryM, Seq<char>> {
    match r {
        Ok(v) => Ok(v@),
        Err(e) => Err(e@),
    }
}

/// The summary frame of a result, or the error that keeps it from being
/// framed.
pub fn encode_summary_response(result: &Result<SummaryEvaluation, String>) -> (r: Result<Vec<u8>, String>)
    ensures
        bytes_result(r) == spec_encode_summary(summary_result(*result)),
{
    let evaluation = match result {
        Ok(e) => e,
        Err(e) => {
            let framed: Result<Evaluation, String> = Err(e.clone());
            return encode_response(&framed);
        },
    };
    let ghost m = evaluation@;
    let mut out = magic_bytes();
    out.push(2);
    match write_telemetry(&mut out, &evaluation.telemetry) {
        Err(e) => {
            return Err(e);
        },
        Ok(_) => {},
    }
    assert(out@ =~= frame_head(2, m.telemetry));
    let n = evaluation.summaries.len();
    if n == 0 || n > 4294967295 {
        return err("invalid summary count");
    }
    push_u32(&mut out, n as u32);
    proof {
        lemma_auto_spec_u32_to_from_le_bytes();
    }
    let size = match n.checked_mul(SUMMARY_BYTES) {
        None => None,
        Some(x) => x.checked_add(out.len()),
    };
    proof {
        lemma_mul_grows(n as int, 1, SUMMARY_BYTES as int);
    }
    let size = match size {
        None => {
            return err("summary size overflow");
        },
        Some(x) => x,
    };
    if size > RESPONSE_LIMIT {
        return err("CUDA response exceeds protocol limit");
    }
    let ghost head = out@;
    assert(head =~= frame_head(2, m.telemetry) + le32(n as u32));
    let mut i: usize = 0;
    while i < n
        invariant
            0 <= i <= n,
            n == evaluation.summaries@.len(),
            m == evaluation@,
            out@ == head + summaries_bytes(m.summaries.take(i as int)),
        decreases n - i,
    {
        let summary = &evaluation.summaries[i];
        let ghost before = out@;
        let mut w: usize = 0;
        while w < 10
            invariant
                0 <= w <= 10,
                summary@.len() == 10,
                out@ == before + words_bytes(summary@.take(w as int)),
            decreases 10 - w,
        {
            push_u64(&mut out, summary[w]);
            assert(summary@.take(w + 1 as int).drop_last() =~= summary@.take(w as int));
            w += 1;
        }
        assert(summary@.take(10) =~= summary@);
        assert(m.summaries[i as int] == summary@);
        assert(m.summaries.take(i + 1 as int).drop_last() =~= m.summaries.take(i as int));
        i += 1;
    }
    assert(m.summaries.take(n as int) =~= m.summaries);
    Ok(out)
}

fn get_summary(b: &[u8], at: usize) -> (r: [u64; 10])
    requires
        at + SUMMARY_BYTES <= b@.len(),
    ensures
        r@ == Seq::new(
            10,
            |w: int| spec_u64_from_le_bytes(b@.subrange(at + w * 8, at + w * 8 + 8)),
        ),
{
    let mut v: Vec<u64> = Vec::new();
    let mut w: usize = 0;
    assert(b@.len() == b.len());
    while w < 10
        invariant
            0 <= w <= 10,
            at + SUMMARY_BYTES <= b@.len(),
            b@.len() == b.len(),
            v@.len() == w,
            forall|j: int| 0 <= j < w ==> v@[j] == spec_u64_from_le_bytes(b@.subrange(at + j * 8, at + j * 8 + 8)),
        decreases 10 - w,
    {
        let x = match get_u64(b, at + w * 8) {
            Ok((x, _)) => x,
            Err(_) => 0,
        };
        v.push(x);
        w += 1;
    }
    let r = [v[0], v[1], v[2], v[3], v[4], v[5], v[6], v[7], v[8], v[9]];
    assert(r@ =~= Seq::new(
        10,
        |w: int| spec_u64_from_le_bytes(b@.subrange(at + w * 8, at + w * 8 + 8)),
    ));
    r
}

/// The summaries a summary frame carries, or the error of an error frame;
/// or why the frame is malformed.
pub fn decode_summary_response(bytes: &[u8]) -> (r: Result<SummaryEvaluation, String>)
    ensures
        summary_result(r) == spec_decode_summary(bytes@),
{
    let ghost b = bytes@;
    if bytes.len() > RESPONSE_LIMIT {
        return err("CUDA response exceeds protocol limit");
    }
    if bytes.len() < 8 {
        return err("truncated CUDA response");
    }
    let head = copy_span(bytes, 0, 8);
    let expected = magic_bytes();
    if !bytes_eq(head.as_slice(), expected.as_slice()) {
        return err("unsupported CUDA response version");
    }
    if bytes.len() < 9 {
        return err("truncated CUDA response");
    }
    let tag = bytes[8];
    if tag == 0 {
        return match decode_response(bytes) {
            Err(e) => Err(e),
            Ok(_) => {
                assert(spec_decode(b) is Err);
                err("truncated CUDA response")
            },
        };
    }
    if tag != 2 {
        return err("expected CUDA summary response");
    }
    let (telemetry, p) = match get_telemetry(bytes, 9) {
        Err(e) => {
            return Err(e);
        },
        Ok(v) => v,
    };
    let (count, p1) = match get_u32(bytes, p) {
        Err(e) => {
            return Err(e);
        },
        Ok(v) => v,
    };
    let count = count as usize;
    let fits = match count.checked_mul(SUMMARY_BYTES) {
        None => false,
        Some(x) => x == bytes.len() - p1,
    };
    if count == 0 || !fits {
        return err("summary dimensions or length mismatch");
    }
    let ghost model = decoded_summaries(b, p1 as int, count as int);
    let mut summaries: Vec<[u64; 10]> = Vec::new();
    let mut i: usize = 0;
    let mut at: usize = p1;
    while i < count
        invariant
            b == bytes@,
            bytes@.len() == bytes.len(),
            0 <= i <= count,
            count * SUMMARY_BYTES == b.len() - p1,
            at == p1 + i * SUMMARY_BYTES,
            model == decoded_summaries(b, p1 as int, count as int),
            summaries@.len() == i,
            forall|j: int| 0 <= j < i ==> (#[trigger] summaries@[j])@ == model[j],
        decreases count - i,
    {
        proof {
            assert(i * SUMMARY_BYTES + SUMMARY_BYTES <= count * SUMMARY_BYTES) by (nonlinear_arith)
                requires
                    i < count,
            ;
        }
        let words = get_summary(bytes, at);
        assert(words@ =~= model[i as int]);
        summaries.push(words);
        i += 1;
        at += SUMMARY_BYTES;
    }
    let evaluation = SummaryEvaluation { summaries, telemetry };
    assert(evaluation@.summaries =~= model);
    Ok(evaluation)
}

// ---------------------------------------------------------------------------
// What a frame carries.

proof fn lemma_inner(b: Seq<u8>, p: int, x: Seq<u8>, o: int, n: int)
    requires
        0 <= p,
        p + x.len() <= b.len(),
        b.subrange(p, p + x.len()) == x,
        0 <= o,
        0 <= n,
        o + n <= x.len(),
    ensures
        b.subrange(p + o, p + o + n) == x.subrange(o, o + n),
{
    assert(b.subrange(p + o, p + o + n) =~= x.subrange(o, o + n)) by {
        assert forall|i: int| 0 <= i < n implies #[trigger] b.subrange(p + o, p + o + n)[i] == x.subrange(o, o + n)[i] by {
            assert(b.subrange(p, p + x.len())[o + i] == b[p + o + i]);
        }
    }
}

proof fn lemma_read_u32_at(b: Seq<u8>, p: int, x: u32)
    requires
        0 <= p,
        p + 4 <= b.len(),
        b.subrange(p, p + 4) == le32(x),
    ensures
        read_u32(b, p) == Ok::<(u32, int), Seq<char>>((x, p + 4)),
{
    lemma_auto_spec_u32_to_from_le_bytes();
    assert(spec_u32_to_le_bytes(x).len() == 4);
    assert(spec_u32_from_le_bytes(spec_u32_to_le_bytes(x)) == x);
}

proof fn lemma_read_u64_at(b: Seq<u8>, p: int, x: u64)
    requires
        0 <= p,
        p + 8 <= b.len(),
        b.subrange(p, p + 8) == le64(x),
    ensures
        read_u64(b, p) == Ok::<(u64, int), Seq<char>>((x, p + 8)),
{
    lemma_auto_spec_u64_to_from_le_bytes();
    assert(spec_u64_from_le_bytes(spec_u64_to_le_bytes(x)) == x);
}

proof fn lemma_string_bytes(s: Seq<char>)
    requires
        string_ok(s),
    ensures
        string_bytes(s).len() == 4 + encode_utf8(s).len(),
        string_bytes(s).subrange(0, 4) == le32(encode_utf8(s).len() as u32),
        string_bytes(s).subrange(4, 4 + encode_utf8(s).len() as int) == encode_utf8(s),
{
    lemma_auto_spec_u32_to_from_le_bytes();
    let e = encode_utf8(s);
    let sb = string_bytes(s);
    assert(sb.subrange(0, 4) =~= le32(e.len() as u32));
    assert(sb.subrange(4, 4 + e.len() as int) =~= e);
}

proof fn lemma_read_string_at(b: Seq<u8>, p: int, s: Seq<char>)
    requires
        string_ok(s),
        0 <= p,
        p + string_bytes(s).len() <= b.len(),
        b.subrange(p, p + string_bytes(s).len()) == string_bytes(s),
    ensures
        read_string(b, p) == Ok::<(Seq<char>, int), Seq<char>>((s, p + string_bytes(s).len())),
{
    broadcast use vstd::utf8::encode_utf8_valid_utf8, vstd::utf8::encode_utf8_decode_utf8;

    let e = encode_utf8(s);
    let sb = string_bytes(s);
    lemma_string_bytes(s);
    lemma_inner(b, p, sb, 0, 4);
    lemma_read_u32_at(b, p, e.len() as u32);
    lemma_inner(b, p, sb, 4, e.len() as int);
    assert(b.subrange(p + 4, p + 4 + e.len()) == e);
}

pub open spec fn time_offset(k: int) -> int {
    8 * k
}

proof fn lemma_read_times_at(b: Seq<u8>, p: int, times: Seq<u64>, k: nat)
    requires
        times.len() == 5,
        k <= 5,
        0 <= p,
        p + 40 <= b.len(),
        forall|i: int| 0 <= i < 5 ==> timing_ok(#[trigger] times[i]),
        forall|i: int| 0 <= i < 5 ==> b.subrange(p + 8 * i, p + 8 * i + 8) == le64(#[trigger] times[i]),
    ensures
        read_times(b, p, k) == Ok::<(Seq<u64>, int), Seq<char>>((times.take(k as int), p + 8 * k)),
    decreases k,
{
    if k > 0 {
        lemma_read_times_at(b, p, times, (k - 1) as nat);
        let i = k - 1;
        assert(b.subrange(p + 8 * i, p + 8 * i + 8) == le64(times[i as int]));
        lemma_read_u64_at(b, p + 8 * i, times[i as int]);
        assert(times.take(i as int).push(times[i as int]) =~= times.take(k as int));
    } else {
        assert(times.take(0) =~= seq![]);
    }
}

pub open spec fn strings_end(ss: Seq<Seq<char>>, k: int) -> int
    decreases k,
{
    if k <= 0 {
        0
    } else {
        strings_end(ss, k - 1) + string_bytes(ss[k - 1]).len()
    }
}

proof fn lemma_read_strings_at(b: Seq<u8>, p: int, ss: Seq<Seq<char>>, k: nat)
    requires
        ss.len() == 3,
        k <= 3,
        0 <= p,
        p + strings_end(ss, 3) <= b.len(),
        forall|i: int| 0 <= i < 3 ==> string_ok(#[trigger] ss[i]),
        forall|i: int|
            0 <= i < 3 ==> b.subrange(p + strings_end(ss, i), p + strings_end(ss, i + 1))
                == string_bytes(#[trigger] ss[i]),
    ensures
        read_strings(b, p, k) == Ok::<(Seq<Seq<char>>, int), Seq<char>>((ss.take(k as int), p + strings_end(ss, k as int))),
    decreases k,
{
    if k > 0 {
        lemma_read_strings_at(b, p, ss, (k - 1) as nat);
        let i = k - 1;
        assert(b.subrange(p + strings_end(ss, i as int), p + strings_end(ss, i + 1)) == string_bytes(ss[i as int]));
        assert(strings_end(ss, i + 1) == strings_end(ss, i as int) + string_bytes(ss[i as int]).len());
        assert(strings_end(ss, 3) >= strings_end(ss, i + 1)) by {
            assert(strings_end(ss, 3) == strings_end(ss, 2) + string_bytes(ss[2]).len());
            assert(strings_end(ss, 2) == strings_end(ss, 1) + string_bytes(ss[1]).len());
        }
        lemma_read_string_at(b, p + strings_end(ss, i as int), ss[i as int]);
        assert(ss.take(i as int).push(ss[i as int]) =~= ss.take(k as int));
    } else {
        assert(ss.take(0) =~= seq![]);
    }
}

proof fn lemma_read_telemetry_at(b: Seq<u8>, p: int, t: TelemetryM)
    requires
        telemetry_wf(t),
        telemetry_error(t) is None,
        0 <= p,
        p + telemetry_bytes(t).len() <= b.len(),
        b.subrange(p, p + telemetry_bytes(t).len()) == telemetry_bytes(t),
    ensures
        read_telemetry(b, p) == Ok::<(TelemetryM, int), Seq<char>>((t, p + telemetry_bytes(t).len())),
{
    lemma_auto_spec_u32_to_from_le_bytes();
    lemma_auto_spec_u64_to_from_le_bytes();
    let tb = telemetry_bytes(t);
    let ss = t.strings;
    assert(forall|i: int| 0 <= i < 5 ==> timing_ok(#[trigger] t.times[i]));
    assert(forall|i: int| 0 <= i < 3 ==> string_ok(#[trigger] ss[i]));
    lemma_string_bytes(ss[0]);
    lemma_string_bytes(ss[1]);
    lemma_string_bytes(ss[2]);
    assert(strings_end(ss, 1) == string_bytes(ss[0]).len()) by {
        reveal_with_fuel(strings_end, 2);
    }
    assert(strings_end(ss, 2) == strings_end(ss, 1) + string_bytes(ss[1]).len());
    assert(strings_end(ss, 3) == strings_end(ss, 2) + string_bytes(ss[2]).len());
    assert(tb.len() == 56 + strings_end(ss, 3));
    assert forall|i: int| 0 <= i < 5 implies b.subrange(p + 8 * i, p + 8 * i + 8) == le64(
        #[trigger] t.times[i],
    ) by {
        lemma_inner(b, p, tb, 8 * i, 8);
        assert(tb.subrange(8 * i, 8 * i + 8) =~= le64(t.times[i]));
    }
    lemma_read_times_at(b, p, t.times, 5);
    assert(t.times.take(5) =~= t.times);
    lemma_inner(b, p, tb, 40, 4);
    assert(tb.subrange(40, 44) =~= le32(t.driver as u32));
    lemma_read_u32_at(b, p + 40, t.driver as u32);
    lemma_inner(b, p, tb, 44, 4);
    assert(tb.subrange(44, 48) =~= le32(t.runtime as u32));
    lemma_read_u32_at(b, p + 44, t.runtime as u32);
    lemma_inner(b, p, tb, 48, 8);
    assert(tb.subrange(48, 56) =~= le64(t.allocated_bytes));
    lemma_read_u64_at(b, p + 48, t.allocated_bytes);
    assert forall|i: int| 0 <= i < 3 implies b.subrange(
        p + 56 + strings_end(ss, i),
        p + 56 + strings_end(ss, i + 1),
    ) == string_bytes(#[trigger] ss[i]) by {
        let lo = strings_end(ss, i);
        let n = string_bytes(ss[i]).len() as int;
        assert(strings_end(ss, i + 1) == lo + n);
        lemma_inner(b, p, tb, 56 + lo, n);
        assert(tb.subrange(56 + lo, 56 + lo + n) =~= string_bytes(ss[i]));
    }
    lemma_read_strings_at(b, p + 56, ss, 3);
    assert(ss.take(3) =~= ss);
    let d = t.driver;
    let r = t.runtime;
    assert((d as u32) as i32 == d) by (bit_vector);
    assert((r as u32) as i32 == r) by (bit_vector);
}

proof fn lemma_record_bytes_len(e: ExecutionM)
    ensures
        record_bytes(e).len() == RECORD_BYTES,
{
    lemma_auto_spec_u64_to_from_le_bytes();
    let (status, ty, bits) = record_fields(e.outcome);
    assert(le64(bits).len() == 8);
    assert(le64(e.steps).len() == 8);
}

proof fn lemma_record_round_trip(e: ExecutionM)
    requires
        record_error(e.outcome) is None,
    ensures
        record_bytes(e).len() == RECORD_BYTES,
        decode_record(record_bytes(e)) == Ok::<ExecutionM, Seq<char>>(e),
{
    lemma_auto_spec_u64_to_from_le_bytes();
    lemma_record_bytes_len(e);
    let (status, ty, bits) = record_fields(e.outcome);
    let r = record_bytes(e);
    assert(r.subrange(2, 10) =~= le64(bits));
    assert(r.subrange(10, 18) =~= le64(e.steps));
    assert(spec_u64_to_le_bytes(bits).len() == 8);
    assert(spec_u64_to_le_bytes(e.steps).len() == 8);
    assert(r[0] == status && r[1] == ty);
    match e.outcome {
        OutcomeM::Completed(v) => {
            let m = v.ty.spec_mask();
            let x = v.bits;
            assert(x & !m == 0 ==> x & m == x) by (bit_vector);
            assert(code_type(type_code(v.ty)) == v.ty);
        },
        _ => {},
    }
}

proof fn lemma_row_bytes(row: Seq<ExecutionM>)
    ensures
        row_bytes(row).len() == RECORD_BYTES * row.len(),
        forall|c: int|
            0 <= c < row.len() ==> row_bytes(row).subrange(RECORD_BYTES * c, RECORD_BYTES * c + RECORD_BYTES)
                == record_bytes(#[trigger] row[c]),
    decreases row.len(),
{
    if row.len() > 0 {
        let init = row.drop_last();
        lemma_row_bytes(init);
        lemma_record_bytes_len(row.last());
        let rb = row_bytes(row);
        assert(rb == row_bytes(init) + record_bytes(row.last()));
        assert forall|c: int| 0 <= c < row.len() implies rb.subrange(
            RECORD_BYTES * c,
            RECORD_BYTES * c + RECORD_BYTES,
        ) == record_bytes(#[trigger] row[c]) by {
            if c < row.len() - 1 {
                assert(init[c] == row[c]);
                assert(rb.subrange(RECORD_BYTES * c, RECORD_BYTES * c + RECORD_BYTES) =~= row_bytes(
                    init,
                ).subrange(RECORD_BYTES * c, RECORD_BYTES * c + RECORD_BYTES));
            } else {
                assert(rb.subrange(RECORD_BYTES * c, RECORD_BYTES * c + RECORD_BYTES) =~= record_bytes(
                    row.last(),
                ));
            }
        }
    }
}

proof fn lemma_rows_bytes(rows: Seq<Seq<ExecutionM>>, cases: int)
    requires
        cases >= 0,
        forall|p: int| 0 <= p < rows.len() ==> (#[trigger] rows[p]).len() == cases,
    ensures
        rows_bytes(rows).len() == RECORD_BYTES * (rows.len() * cases),
        forall|p: int, c: int|
            0 <= p < rows.len() && 0 <= c < cases ==> rows_bytes(rows).subrange(
                RECORD_BYTES * (p * cases + c),
                RECORD_BYTES * (p * cases + c) + RECORD_BYTES,
            ) == record_bytes(#[trigger] rows[p][c]),
    decreases rows.len(),
{
    if rows.len() > 0 {
        let init = rows.drop_last();
        let n = rows.len() - 1;
        lemma_rows_bytes(init, cases);
        lemma_row_bytes(rows.last());
        let all = rows_bytes(rows);
        let front = rows_bytes(init);
        assert(all == front + row_bytes(rows.last()));
        assert(front.len() == RECORD_BYTES * (n * cases));
        assert(RECORD_BYTES * (n * cases) + RECORD_BYTES * cases == RECORD_BYTES * (rows.len() * cases))
            by (nonlinear_arith)
            requires
                n == rows.len() - 1,
        ;
        assert forall|p: int, c: int| 0 <= p < rows.len() && 0 <= c < cases implies all.subrange(
            RECORD_BYTES * (p * cases + c),
            RECORD_BYTES * (p * cases + c) + RECORD_BYTES,
        ) == record_bytes(#[trigger] rows[p][c]) by {
            let lo = RECORD_BYTES * (p * cases + c);
            if p < n {
                assert(init[p] == rows[p]);
                assert(lo + RECORD_BYTES <= RECORD_BYTES * (n * cases)) by (nonlinear_arith)
                    requires
                        0 <= p < n,
                        0 <= c < cases,
                        lo == RECORD_BYTES * (p * cases + c),
                ;
                assert(all.subrange(lo, lo + RECORD_BYTES) =~= front.subrange(lo, lo + RECORD_BYTES));
            } else {
                assert(lo == RECORD_BYTES * (n * cases) + RECORD_BYTES * c) by (nonlinear_arith)
                    requires
                        p == n,
                        lo == RECORD_BYTES * (p * cases + c),
                ;
                let last = row_bytes(rows.last());
                assert(all.subrange(lo, lo + RECORD_BYTES) =~= last.subrange(
                    RECORD_BYTES * c,
                    RECORD_BYTES * c + RECORD_BYTES,
                ));
            }
        }
    }
}

proof fn lemma_row_error_none(row: Seq<ExecutionM>, i: int)
    requires
        0 <= i,
        row_error_from(row, i) is None,
    ensures
        forall|c: int| i <= c < row.len() ==> record_error((#[trigger] row[c]).outcome) is None,
    decreases row.len() - i,
{
    if i < row.len() {
        lemma_row_error_none(row, i + 1);
    }
}

proof fn lemma_rows_error_none(rows: Seq<Seq<ExecutionM>>, j: int, cases: int)
    requires
        0 <= j,
        rows_error_from(rows, j, cases) is None,
    ensures
        forall|p: int| j <= p < rows.len() ==> (#[trigger] rows[p]).len() == cases,
        forall|p: int, c: int|
            j <= p < rows.len() && 0 <= c < cases ==> record_error((#[trigger] rows[p][c]).outcome) is None,
    decreases rows.len() - j,
{
    if j < rows.len() {
        lemma_row_error_none(rows[j], 0);
        lemma_rows_error_none(rows, j + 1, cases);
    }
}

proof fn lemma_records_none(b: Seq<u8>, base: int, k: int, total: int)
    requires
        0 <= k,
        forall|q: int| k <= q < total ==> (#[trigger] decode_record(rec_at(b, base, q))) is Ok,
    ensures
        records_error_from(b, base, k, total) is None,
    decreases total - k,
{
    if k < total {
        assert(decode_record(rec_at(b, base, k)) is Ok);
        lemma_records_none(b, base, k + 1, total);
    }
}

/// An error frame carries back the error it was made of.
pub proof fn law_error_round_trip(e: Seq<char>)
    requires
        string_ok(e),
    ensures
        spec_encode(Err(e)) is Ok,
        spec_decode(spec_encode(Err(e))->Ok_0) == Err::<EvaluationM, Seq<char>>(e),
{
    let b = magic() + seq![0u8] + string_bytes(e);
    lemma_string_bytes(e);
    assert(b.subrange(0, 8) =~= magic());
    assert(b[8] == 0);
    assert(b.subrange(9, 9 + string_bytes(e).len() as int) =~= string_bytes(e));
    lemma_read_string_at(b, 9, e);
}

/// A detailed frame carries back exactly the evaluation it was made of:
/// every execution, in its program's row and its case's column, and the
/// telemetry.
pub proof fn law_response_round_trip(m: EvaluationM)
    requires
        telemetry_wf(m.telemetry),
        spec_encode(Ok(m)) is Ok,
    ensures
        spec_decode(spec_encode(Ok(m))->Ok_0) == Ok::<EvaluationM, Seq<char>>(m),
{
    lemma_auto_spec_u32_to_from_le_bytes();
    let t = m.telemetry;
    let rows = m.executions;
    let programs = rows.len() as int;
    let cases = cases_of(rows);
    let tb = telemetry_bytes(t);
    let fh = frame_head(1, t);
    let rb = rows_bytes(rows);
    let b = fh + le32(programs as u32) + le32(cases as u32) + rb;
    assert(spec_encode(Ok(m))->Ok_0 == b);
    lemma_rows_error_none(rows, 0, cases);
    lemma_rows_bytes(rows, cases);
    assert(le32(programs as u32).len() == 4);
    assert(le32(cases as u32).len() == 4);
    assert(fh.len() == 9 + tb.len());
    let p: int = 9 + tb.len() as int;
    let p2: int = p + 8;
    assert(b.len() == p2 + rb.len());
    assert(b.subrange(0, 8) =~= magic());
    assert(b[8] == 1);
    assert(b.subrange(9, p) =~= tb);
    lemma_read_telemetry_at(b, 9, t);
    assert(b.subrange(p, p + 4) =~= le32(programs as u32));
    lemma_read_u32_at(b, p, programs as u32);
    assert(b.subrange(p + 4, p + 8) =~= le32(cases as u32));
    lemma_read_u32_at(b, p + 4, cases as u32);
    assert(programs as u32 == programs);
    assert(cases as u32 == cases);
    assert(rb.len() == programs * cases * RECORD_BYTES) by (nonlinear_arith)
        requires
            rb.len() == RECORD_BYTES * (programs * cases),
    ;
    assert(b.subrange(p2, p2 + rb.len() as int) =~= rb);
    let total = programs * cases;
    assert forall|p0: int, c: int| 0 <= p0 < programs && 0 <= c < cases implies decode_record(
        rec_at(b, p2, p0 * cases + c),
    ) == Ok::<ExecutionM, Seq<char>>(#[trigger] rows[p0][c]) by {
        let k = p0 * cases + c;
        assert(0 <= k < total) by (nonlinear_arith)
            requires
                0 <= p0 < programs,
                0 <= c < cases,
                k == p0 * cases + c,
                total == programs * cases,
        ;
        assert(k * RECORD_BYTES == RECORD_BYTES * k) by (nonlinear_arith);
        assert(RECORD_BYTES * k + RECORD_BYTES <= rb.len()) by (nonlinear_arith)
            requires
                0 <= k < total,
                rb.len() == total * RECORD_BYTES,
        ;
        lemma_inner(b, p2, rb, RECORD_BYTES * k, RECORD_BYTES as int);
        assert(rec_at(b, p2, k) == rb.subrange(RECORD_BYTES * k, RECORD_BYTES * k + RECORD_BYTES));
        assert(rb.subrange(RECORD_BYTES * k, RECORD_BYTES * k + RECORD_BYTES) == record_bytes(rows[p0][c]));
        lemma_record_round_trip(rows[p0][c]);
    }
    assert forall|q: int| 0 <= q < total implies (#[trigger] decode_record(rec_at(b, p2, q))) is Ok by {
        let p0 = q / cases;
        let c = q % cases;
        assert(q == p0 * cases + c && 0 <= p0 < programs && 0 <= c < cases) by (nonlinear_arith)
            requires
                0 <= q < total,
                total == programs * cases,
                cases > 0,
                p0 == q / cases,
                c == q % cases,
        ;
        assert(decode_record(rec_at(b, p2, p0 * cases + c)) == Ok::<ExecutionM, Seq<char>>(rows[p0][c]));
    }
    lemma_records_none(b, p2, 0, total);
    let d = decoded_rows(b, p2, programs, cases);
    assert forall|p0: int| 0 <= p0 < programs implies (#[trigger] d[p0]) =~= rows[p0] by {
        assert forall|c: int| 0 <= c < cases implies d[p0][c] == rows[p0][c] by {
            assert(decode_record(rec_at(b, p2, p0 * cases + c)) == Ok::<ExecutionM, Seq<char>>(rows[p0][c]));
        }
    }
    assert(d =~= rows);
}

proof fn lemma_words_bytes(ws: Seq<u64>)
    ensures
        words_bytes(ws).len() == 8 * ws.len(),
        forall|w: int|
            0 <= w < ws.len() ==> words_bytes(ws).subrange(8 * w, 8 * w + 8) == le64(#[trigger] ws[w]),
    decreases ws.len(),
{
    lemma_auto_spec_u64_to_from_le_bytes();
    if ws.len() > 0 {
        let init = ws.drop_last();
        lemma_words_bytes(init);
        let all = words_bytes(ws);
        assert(le64(ws.last()).len() == 8);
        assert forall|w: int| 0 <= w < ws.len() implies all.subrange(8 * w, 8 * w + 8) == le64(
            #[trigger] ws[w],
        ) by {
            if w < ws.len() - 1 {
                assert(init[w] == ws[w]);
                assert(all.subrange(8 * w, 8 * w + 8) =~= words_bytes(init).subrange(8 * w, 8 * w + 8));
            } else {
                assert(all.subrange(8 * w, 8 * w + 8) =~= le64(ws.last()));
            }
        }
    }
}

proof fn lemma_summaries_bytes(ss: Seq<Seq<u64>>)
    requires
        forall|i: int| 0 <= i < ss.len() ==> (#[trigger] ss[i]).len() == 10,
    ensures
        summaries_bytes(ss).len() == SUMMARY_BYTES * ss.len(),
        forall|i: int, w: int|
            0 <= i < ss.len() && 0 <= w < 10 ==> summaries_bytes(ss).subrange(
                SUMMARY_BYTES * i + 8 * w,
                SUMMARY_BYTES * i + 8 * w + 8,
            ) == le64(#[trigger] ss[i][w]),
    decreases ss.len(),
{
    if ss.len() > 0 {
        let init = ss.drop_last();
        let n = ss.len() - 1;
        lemma_summaries_bytes(init);
        lemma_words_bytes(ss.last());
        let all = summaries_bytes(ss);
        let front = summaries_bytes(init);
        assert forall|i: int, w: int| 0 <= i < ss.len() && 0 <= w < 10 implies all.subrange(
            SUMMARY_BYTES * i + 8 * w,
            SUMMARY_BYTES * i + 8 * w + 8,
        ) == le64(#[trigger] ss[i][w]) by {
            let lo = SUMMARY_BYTES * i + 8 * w;
            if i < n {
                assert(init[i] == ss[i]);
                assert(all.subrange(lo, lo + 8) =~= front.subrange(lo, lo + 8));
            } else {
                assert(all.subrange(lo, lo + 8) =~= words_bytes(ss.last()).subrange(8 * w, 8 * w + 8));
            }
        }
    }
}

/// A summary frame carries back exactly the summaries and telemetry it was
/// made of.
pub proof fn law_summary_round_trip(m: SummaryM)
    requires
        telemetry_wf(m.telemetry),
        forall|i: int| 0 <= i < m.summaries.len() ==> (#[trigger] m.summaries[i]).len() == 10,
        spec_encode_summary(Ok(m)) is Ok,
    ensures
        spec_decode_summary(spec_encode_summary(Ok(m))->Ok_0) == Ok::<SummaryM, Seq<char>>(m),
{
    lemma_auto_spec_u32_to_from_le_bytes();
    lemma_auto_spec_u64_to_from_le_bytes();
    let t = m.telemetry;
    let ss = m.summaries;
    let n = ss.len() as int;
    let tb = telemetry_bytes(t);
    let fh = frame_head(2, t);
    let sb = summaries_bytes(ss);
    let b = fh + le32(n as u32) + sb;
    assert(spec_encode_summary(Ok(m))->Ok_0 == b);
    lemma_summaries_bytes(ss);
    assert(le32(n as u32).len() == 4);
    let p: int = 9 + tb.len() as int;
    let p1: int = p + 4;
    assert(b.subrange(0, 8) =~= magic());
    assert(b[8] == 2);
    assert(b.subrange(9, p) =~= tb);
    lemma_read_telemetry_at(b, 9, t);
    assert(b.subrange(p, p + 4) =~= le32(n as u32));
    lemma_read_u32_at(b, p, n as u32);
    assert(b.subrange(p1, p1 + sb.len() as int) =~= sb);
    let d = decoded_summaries(b, p1, n);
    assert forall|i: int| 0 <= i < n implies (#[trigger] d[i]) =~= ss[i] by {
        assert forall|w: int| 0 <= w < 10 implies d[i][w] == ss[i][w] by {
            let lo = SUMMARY_BYTES * i + 8 * w;
            assert(lo + 8 <= sb.len()) by (nonlinear_arith)
                requires
                    0 <= i < n,
                    0 <= w < 10,
                    lo == SUMMARY_BYTES * i + 8 * w,
                    sb.len() == SUMMARY_BYTES * n,
            ;
            lemma_inner(b, p1, sb, lo, 8);
            assert(i * SUMMARY_BYTES == SUMMARY_BYTES * i) by (nonlinear_arith);
            assert(spec_u64_to_le_bytes(ss[i][w]).len() == 8);
        }
    }
    assert(d =~= ss);
}

/// A summary frame is no detailed frame, and a detailed frame is no
/// summary frame.
pub proof fn law_frames_are_distinct(m: EvaluationM, s: SummaryM)
    requires
        spec_encode(Ok(m)) is Ok,
        spec_encode_summary(Ok(s)) is Ok,
    ensures
        spec_decode_summary(spec_encode(Ok(m))->Ok_0) is Err,
        spec_decode(spec_encode_summary(Ok(s))->Ok_0) is Err,
{
    let b = spec_encode(Ok(m))->Ok_0;
    let c = spec_encode_summary(Ok(s))->Ok_0;
    assert(b[8] == 1);
    assert(c[8] == 2);
}

} // verus!
