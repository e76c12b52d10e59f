//! The native oracle's own decisions: which target binary it accepts,
//! what identifies its setup, which worker replies it accepts, how work
//! is split into batches and when two runs of a batch agree. Running the
//! worker in its sandbox is the caller's part.
use vstd::prelude::*;

use crate::binary::{contract_ok, BinaryContract};
use crate::corpus::{field_bytes, le_bytes, push_field, push_le, TargetIdentity};
use crate::digest::sha256_hex;
use crate::lifter::{dyn_symbol_view, dynamic_symbols, object_dynamic_symbols, DynSymbol};
use crate::sig::{sig_valid, Signature};
use crate::text::{chars_eq, chars_of, err, extend_chars, string_of};
use crate::types::{Type, Value};

verus! {

/// Most inputs sent to one worker run.
pub const MAX_BATCH: usize = 4096;

/// What the target's contract says of it, as recorded in the identity.
pub open spec fn native_contract() -> Seq<char> {
    "pure deterministic total integer return; ELF x86-64 sysv64; isolated empty environment; no observable syscalls"@
}

/// What identifies the native oracle's setup: the contract and the
/// digests and versions of the binary, the worker, the sandbox, the
/// runtime files and the kernel.
#[derive(Clone, Debug, PartialEq, Eq)]
pub struct BinaryIdentity {
    pub contract: BinaryContract,
    pub binary_sha256: String,
    pub worker_sha256: String,
    pub sandbox_version: String,
    pub sandbox_sha256: String,
    pub runtime_files: Vec<(String, String)>,
    pub kernel: String,
}

/// The facts about the sandbox that the caller gathers: digests of the
/// worker and the sandbox executable, the sandbox's version, each
/// runtime file with its digest, and the kernel.
#[derive(Clone, Debug)]
pub struct SandboxFacts {
    pub worker_sha256: String,
    pub sandbox_version: String,
    pub sandbox_sha256: String,
    pub runtime_files: Vec<(String, String)>,
    pub kernel: String,
}

/// A worker's reply: the values, or an error.
#[derive(Clone, Debug)]
pub struct Response {
    pub values: Vec<Value>,
    pub error: Option<String>,
}

/// An oracle that runs a native target, and what identifies it.
pub struct BinaryOracle {
    contract: BinaryContract,
    signature: Signature,
    worker: String,
    identity: BinaryIdentity,
}

/// An ASCII letter in lower case; other characters unchanged.
pub open spec fn ascii_lower(c: char) -> char {
    if 'A' <= c <= 'Z' {
        ((c as u32) + 32) as char
    } else {
        c
    }
}

/// A 64-bit little-endian ELF shared object for x86-64.
pub open spec fn elf_header_ok(d: Seq<u8>) -> bool {
    &&& d.len() >= 20
    &&& d[0] == 0x7f && d[1] == 0x45 && d[2] == 0x4c && d[3] == 0x46
    &&& d[4] == 2 && d[5] == 1
    &&& d[16] == 3 && d[17] == 0
    &&& d[18] == 62 && d[19] == 0
}

/// The symbol is defined and has the name.
pub open spec fn defines(s: DynSymbol, name: Seq<char>) -> bool {
    s.name matches Some(n) && n@ == name && !s.undefined
}

/// Some symbol of the list is defined and has the name.
pub open spec fn exports(symbols: Seq<DynSymbol>, name: Seq<char>) -> bool {
    exists|i: int| 0 <= i < symbols.len() && defines(#[trigger] symbols[i], name)
}

/// Some symbol, as plain values, is defined and has the name.
pub open spec fn exports_view(
    symbols: Seq<(Option<Seq<char>>, bool, Option<u8>, u64, bool, u64, Option<usize>)>,
    name: Seq<char>,
) -> bool {
    exists|i: int| 0 <= i < symbols.len() && (#[trigger] symbols[i]).0 == Some(name) && !symbols[i].1
}

/// The export check reads the same on the plain values.
proof fn lemma_exports_view(symbols: Seq<DynSymbol>, name: Seq<char>)
    ensures
        exports(symbols, name) == exports_view(symbols.map_values(|x: DynSymbol| dyn_symbol_view(x)), name),
{
    let v = symbols.map_values(|x: DynSymbol| dyn_symbol_view(x));
    if exports(symbols, name) {
        let i = choose|i: int| 0 <= i < symbols.len() && defines(#[trigger] symbols[i], name);
        assert(v[i].0 == Some(name) && !v[i].1);
    }
    if exports_view(v, name) {
        let i = choose|i: int| 0 <= i < v.len() && (#[trigger] v[i]).0 == Some(name) && !v[i].1;
        assert(defines(symbols[i], name));
    }
}

/// Whether some symbol of the list is defined and has the name.
fn has_export(symbols: &Vec<DynSymbol>, name: &str) -> (r: bool)
    ensures
        r == exports(symbols@, name@),
{
    let want = chars_of(name);
    let mut i: usize = 0;
    while i < symbols.len()
        invariant
            0 <= i <= symbols@.len(),
            want@ == name@,
            forall|j: int| 0 <= j < i ==> !defines(#[trigger] symbols@[j], name@),
        decreases symbols@.len() - i,
    {
        if let Some(n) = &symbols[i].name {
            let have = chars_of(n.as_str());
            if chars_eq(&have, &want) && !symbols[i].undefined {
                return true;
            }
        }
        i += 1;
    }
    false
}

/// Whether the bytes start like a 64-bit little-endian ELF shared object
/// for x86-64.
fn is_elf_target(d: &[u8]) -> (r: bool)
    ensures
        r == elf_header_ok(d@),
{
    d.len() >= 20 && d[0] == 0x7f && d[1] == 0x45 && d[2] == 0x4c && d[3] == 0x46 && d[4] == 2
        && d[5] == 1 && d[16] == 3 && d[17] == 0 && d[18] == 62 && d[19] == 0
}

/// The text with ASCII letters in lower case.
fn lower_ascii(s: &str) -> (r: Vec<char>)
    ensures
        r@ == s@.map_values(|c: char| ascii_lower(c)),
{
    let cs = chars_of(s);
    let mut out: Vec<char> = Vec::new();
    let mut i: usize = 0;
    while i < cs.len()
        invariant
            0 <= i <= cs@.len(),
            cs@ == s@,
            out@ == cs@.take(i as int).map_values(|c: char| ascii_lower(c)),
        decreases cs@.len() - i,
    {
        let c = cs[i];
        let l = if 'A' <= c && c <= 'Z' {
            ((c as u8) + 32) as char
        } else {
            c
        };
        out.push(l);
        i += 1;
        assert(out@ =~= cs@.take(i as int).map_values(|c: char| ascii_lower(c)));
    }
    assert(cs@.take(i as int) =~= cs@);
    out
}

/// Runtime files listed by strictly increasing path, as a map keyed by
/// path keeps them: each path once.
pub open spec fn files_sorted(files: Seq<(String, String)>) -> bool {
    forall|i: int, j: int| 0 <= i < j < files.len() ==> crate::corpus::chars_less(files[i].0@, files[j].0@)
}

/// What `check_target` accepts: a valid contract and signature, bytes with
/// the contract's digest and an ELF header of the supported kind, and the
/// contract's symbol defined among the dynamic symbols the object reader
/// finds.
pub open spec fn target_ok(contract: BinaryContract, signature: Signature, data: Seq<u8>) -> bool {
    &&& contract_ok(contract)
    &&& sig_valid(signature.arguments@, signature.return_type)
    &&& sha256_hex(data) == contract.sha256@.map_values(|c: char| ascii_lower(c))
    &&& elf_header_ok(data)
    &&& object_dynamic_symbols(data) matches Ok(syms) && exports_view(syms, contract.symbol@)
}

/// Checks a target binary against its contract and the signature it is
/// called with: the contract and the signature must be valid, the bytes
/// must have the contract's SHA-256 (in either case) and be a 64-bit
/// little-endian x86-64 ELF shared object, and the contract's symbol must
/// be defined among its dynamic symbols. Gives the bytes' SHA-256.
pub fn check_target(contract: &BinaryContract, signature: &Signature, data: &[u8]) -> (r: Result<
    String,
    String,
>)
    ensures
        r matches Ok(d) ==> {
            &&& contract_ok(*contract)
            &&& sig_valid(signature.arguments@, signature.return_type)
            &&& d@ == sha256_hex(data@)
            &&& d@ == contract.sha256@.map_values(|c: char| ascii_lower(c))
            &&& elf_header_ok(data@)
        },
        !contract_ok(*contract) ==> r is Err,
        contract_ok(*contract) && !sig_valid(signature.arguments@, signature.return_type) ==> r is Err,
        contract_ok(*contract) && sig_valid(signature.arguments@, signature.return_type) && sha256_hex(data@)
            != contract.sha256@.map_values(|c: char| ascii_lower(c)) ==> (r matches Err(m) && m@
            == "binary SHA-256 mismatch"@),
        contract_ok(*contract) && sig_valid(signature.arguments@, signature.return_type) && sha256_hex(data@)
            == contract.sha256@.map_values(|c: char| ascii_lower(c)) && !elf_header_ok(data@) ==> (r matches Err(m)
            && m@ == "expected ELF64 little-endian x86-64 shared object (ET_DYN)"@),
        r is Ok <==> contract_ok(*contract) && sig_valid(signature.arguments@, signature.return_type) && sha256_hex(
            data@,
        ) == contract.sha256@.map_values(|c: char| ascii_lower(c)) && elf_header_ok(data@) && (object_dynamic_symbols(
            data@,
        ) matches Ok(syms) && exports_view(syms, contract.symbol@)),
{
    contract.validate()?;
    signature.validate()?;
    let digest = crate::digest::hash(data);
    let want = lower_ascii(contract.sha256.as_str());
    let have = chars_of(digest.as_str());
    if !chars_eq(&have, &want) {
        return err("binary SHA-256 mismatch");
    }
    if !is_elf_target(data) {
        return err("expected ELF64 little-endian x86-64 shared object (ET_DYN)");
    }
    let symbols = match dynamic_symbols(data) {
        Ok(s) => s,
        Err(e) => {
            let mut m = chars_of("ELF metadata: ");
            extend_chars(&mut m, &chars_of(e.as_str()));
            return Err(string_of(&m));
        },
    };
    proof {
        lemma_exports_view(symbols@, contract.symbol@);
    }
    if !has_export(&symbols, contract.symbol.as_str()) {
        let mut m = chars_of("missing exported symbol ");
        extend_chars(&mut m, &chars_of(contract.symbol.as_str()));
        return Err(string_of(&m));
    }
    Ok(digest)
}

/// The identity's bytes: each text of the contract as a field, its
/// limits in eight bytes each, the digests, versions and kernel as
/// fields, and the runtime files as a count and field pairs.
pub open spec fn contract_bytes(c: BinaryContract) -> Seq<u8> {
    field_bytes(c.path@) + field_bytes(c.sha256@) + field_bytes(c.architecture@) + field_bytes(c.format@)
        + field_bytes(c.symbol@) + field_bytes(c.abi@) + field_bytes(c.environment@) + le_bytes(
        c.wall_timeout_ms,
        8,
    ) + le_bytes(c.cpu_seconds, 8) + le_bytes(c.memory_mb, 8)
}

/// Runtime files and their digests, each as two fields.
pub open spec fn files_bytes(files: Seq<(String, String)>) -> Seq<u8>
    decreases files.len(),
{
    if files.len() == 0 {
        seq![]
    } else {
        files_bytes(files.drop_last()) + field_bytes(files.last().0@) + field_bytes(files.last().1@)
    }
}

/// The canonical bytes of an identity.
pub open spec fn identity_bytes(id: BinaryIdentity) -> Seq<u8> {
    contract_bytes(id.contract) + field_bytes(id.binary_sha256@) + field_bytes(id.worker_sha256@)
        + field_bytes(id.sandbox_version@) + field_bytes(id.sandbox_sha256@) + le_bytes(
        id.runtime_files@.len() as u64,
        8,
    ) + files_bytes(id.runtime_files@) + field_bytes(id.kernel@)
}

/// The canonical bytes of an identity.
fn identity_encoding(id: &BinaryIdentity) -> (r: Vec<u8>)
    ensures
        r@ == identity_bytes(*id),
{
    let c = &id.contract;
    let mut out: Vec<u8> = Vec::new();
    push_field(&mut out, c.path.as_str());
    push_field(&mut out, c.sha256.as_str());
    push_field(&mut out, c.architecture.as_str());
    push_field(&mut out, c.format.as_str());
    push_field(&mut out, c.symbol.as_str());
    push_field(&mut out, c.abi.as_str());
    push_field(&mut out, c.environment.as_str());
    push_le(&mut out, c.wall_timeout_ms, 8);
    push_le(&mut out, c.cpu_seconds, 8);
    push_le(&mut out, c.memory_mb, 8);
    assert(out@ =~= contract_bytes(*c));
    push_field(&mut out, id.binary_sha256.as_str());
    push_field(&mut out, id.worker_sha256.as_str());
    push_field(&mut out, id.sandbox_version.as_str());
    push_field(&mut out, id.sandbox_sha256.as_str());
    push_le(&mut out, id.runtime_files.len() as u64, 8);
    let ghost base = out@;
    let ghost files = id.runtime_files@;
    let mut i: usize = 0;
    while i < id.runtime_files.len()
        invariant
            0 <= i <= files.len(),
            files == id.runtime_files@,
            out@ == base + files_bytes(files.take(i as int)),
        decreases files.len() - i,
    {
        push_field(&mut out, id.runtime_files[i].0.as_str());
        push_field(&mut out, id.runtime_files[i].1.as_str());
        i += 1;
        assert(files.take(i as int).drop_last() =~= files.take(i - 1));
        assert(out@ =~= base + files_bytes(files.take(i as int)));
    }
    assert(files.take(i as int) =~= files);
    push_field(&mut out, id.kernel.as_str());
    assert(out@ =~= identity_bytes(*id));
    out
}

/// A copy of a contract.
fn copy_contract(c: &BinaryContract) -> (r: BinaryContract)
    ensures
        r == *c,
{
    BinaryContract {
        path: c.path.clone(),
        sha256: c.sha256.clone(),
        architecture: c.architecture.clone(),
        format: c.format.clone(),
        symbol: c.symbol.clone(),
        abi: c.abi.clone(),
        environment: c.environment.clone(),
        wall_timeout_ms: c.wall_timeout_ms,
        cpu_seconds: c.cpu_seconds,
        memory_mb: c.memory_mb,
    }
}

/// A copy of a text.
fn copy_string(s: &String) -> (r: String)
    ensures
        r@ == s@,
{
    let cs = chars_of(s.as_str());
    string_of(&cs)
}

impl BinaryOracle {
    /// An oracle for a target whose bytes are `data`, once
    /// `check_target` accepts them, with the sandbox facts the caller
    /// gathered.
    pub fn new(
        contract: BinaryContract,
        signature: Signature,
        worker: String,
        data: &[u8],
        facts: SandboxFacts,
    ) -> (r: Result<BinaryOracle, String>)
        requires
            files_sorted(facts.runtime_files@),
        ensures
            r matches Ok(o) ==> files_sorted(o.identity_view().runtime_files@),
            r is Ok ==> contract_ok(contract) && sig_valid(signature.arguments@, signature.return_type)
                && elf_header_ok(data@),
            r matches Ok(o) ==> {
                &&& o.contract_view() == contract
                &&& o.signature_view().view_pair() == signature.view_pair()
                &&& o.worker_view()@ == worker@
                &&& o.identity_view().contract == contract
                &&& o.identity_view().binary_sha256@ == sha256_hex(data@)
                &&& o.identity_view().worker_sha256 == facts.worker_sha256
                &&& o.identity_view().sandbox_version == facts.sandbox_version
                &&& o.identity_view().sandbox_sha256 == facts.sandbox_sha256
                &&& o.identity_view().runtime_files == facts.runtime_files
                &&& o.identity_view().kernel == facts.kernel
            },
            !contract_ok(contract) ==> r is Err,
            r is Ok <==> target_ok(contract, signature, data@),
    {
        let digest = check_target(&contract, &signature, data)?;
        let identity = BinaryIdentity {
            contract: copy_contract(&contract),
            binary_sha256: digest,
            worker_sha256: facts.worker_sha256,
            sandbox_version: facts.sandbox_version,
            sandbox_sha256: facts.sandbox_sha256,
            runtime_files: facts.runtime_files,
            kernel: facts.kernel,
        };
        Ok(BinaryOracle { contract, signature, worker, identity })
    }

    pub closed spec fn contract_view(&self) -> BinaryContract {
        self.contract
    }

    pub closed spec fn signature_view(&self) -> Signature {
        self.signature
    }

    pub closed spec fn worker_view(&self) -> String {
        self.worker
    }

    pub closed spec fn identity_view(&self) -> BinaryIdentity {
        self.identity
    }

    /// Checks, before a run, that nothing changed since the identity was
    /// established: `binary`, `worker` and `sandbox` are the digests of the
    /// target, the worker and the sandbox executable now, and `files[k]`
    /// that of runtime file `k` of the identity.
    pub fn recheck(&self, binary: &String, worker: &String, sandbox: &String, files: &Vec<String>) -> (r: Result<
        (),
        String,
    >)
        requires
            files@.len() == self.identity_view().runtime_files@.len(),
        ensures
            r is Ok <==> binary@ == self.identity_view().binary_sha256@ && worker@
                == self.identity_view().worker_sha256@ && sandbox@ == self.identity_view().sandbox_sha256@
                && forall|k: int| 0 <= k < files@.len() ==> (#[trigger] files@[k])@ == self.identity_view().runtime_files@[k].1@,
            binary@ != self.identity_view().binary_sha256@ ==> (r matches Err(m) && m@
                == "binary changed since identity was established"@),
            binary@ == self.identity_view().binary_sha256@ && (worker@ != self.identity_view().worker_sha256@
                || sandbox@ != self.identity_view().sandbox_sha256@) ==> (r matches Err(m) && m@
                == "worker or sandbox executable changed during run"@),
    {
        if !chars_eq(&chars_of(binary.as_str()), &chars_of(self.identity.binary_sha256.as_str())) {
            return err("binary changed since identity was established");
        }
        if !chars_eq(&chars_of(worker.as_str()), &chars_of(self.identity.worker_sha256.as_str())) || !chars_eq(
            &chars_of(sandbox.as_str()),
            &chars_of(self.identity.sandbox_sha256.as_str()),
        ) {
            return err("worker or sandbox executable changed during run");
        }
        let mut k: usize = 0;
        while k < files.len()
            invariant
                0 <= k <= files@.len(),
                files@.len() == self.identity.runtime_files@.len(),
                forall|j: int| 0 <= j < k ==> (#[trigger] files@[j])@ == self.identity.runtime_files@[j].1@,
                binary@ == self.identity.binary_sha256@,
                worker@ == self.identity.worker_sha256@,
                sandbox@ == self.identity.sandbox_sha256@,
            decreases files@.len() - k,
        {
            if !chars_eq(&chars_of(files[k].as_str()), &chars_of(self.identity.runtime_files[k].1.as_str())) {
                let mut m = chars_of("runtime dependency changed: ");
                extend_chars(&mut m, &chars_of(self.identity.runtime_files[k].0.as_str()));
                return Err(string_of(&m));
            }
            k += 1;
        }
        Ok(())
    }

    /// What identifies this oracle's setup.
    pub fn identity(&self) -> (r: &BinaryIdentity)
        ensures
            *r == self.identity_view(),
    {
        &self.identity
    }

    /// The path of the worker executable.
    pub fn worker_path(&self) -> (r: &String)
        ensures
            *r == self.worker_view(),
    {
        &self.worker
    }

    /// The target's contract.
    pub fn target_contract(&self) -> (r: &BinaryContract)
        ensures
            *r == self.contract_view(),
    {
        &self.contract
    }

    /// The identity of the target for a corpus: its name, the signature,
    /// the native contract and, as the implementation's fingerprint, the
    /// SHA-256 of the identity's canonical bytes.
    pub fn target_identity(&self, name: &str) -> (r: TargetIdentity)
        ensures
            r.name@ == name@,
            r.signature.view_pair() == self.signature_view().view_pair(),
            r.contract@ == native_contract(),
            r.implementation_fingerprint@ == sha256_hex(identity_bytes(self.identity_view())),
    {
        let bytes = identity_encoding(&self.identity);
        TargetIdentity {
            name: string_of(&chars_of(name)),
            signature: self.signature.copy(),
            contract: string_of(
                &chars_of(
                    "pure deterministic total integer return; ELF x86-64 sysv64; isolated empty environment; no observable syscalls",
                ),
            ),
            implementation_fingerprint: crate::digest::hash(&bytes),
        }
    }

    /// The values of a worker's reply to `count` inputs: its error, or
    /// exactly `count` values of the return type.
    pub fn accept_response(&self, response: Response, count: usize) -> (r: Result<Vec<Value>, String>)
        ensures
            response.error matches Some(e) ==> r == Err::<Vec<Value>, String>(e),
            response.error is None && (response.values@.len() != count || exists|i: int|
                0 <= i < response.values@.len() && (#[trigger] response.values@[i]).ty
                    != self.signature_view().return_type) ==> (r matches Err(m) && m@
                == "worker result count/type mismatch"@),
            r matches Ok(v) ==> response.error is None && v@ == response.values@ && v@.len() == count
                && forall|i: int| 0 <= i < v@.len() ==> (#[trigger] v@[i]).ty == self.signature_view().return_type,
    {
        if let Some(e) = response.error {
            return Err(e);
        }
        let values = response.values;
        if values.len() != count {
            return err("worker result count/type mismatch");
        }
        let ret = self.signature.return_type;
        let mut i: usize = 0;
        while i < values.len()
            invariant
                0 <= i <= values@.len(),
                ret == self.signature_view().return_type,
                response.error is None,
                values@ == response.values@,
                values@.len() == count,
                forall|j: int| 0 <= j < i ==> (#[trigger] values@[j]).ty == ret,
            decreases values@.len() - i,
        {
            if values[i].ty != ret {
                return err("worker result count/type mismatch");
            }
            i += 1;
        }
        Ok(values)
    }
}

/// The results of two runs of one batch, when they agree.
pub fn agree(first: Vec<Value>, second: &Vec<Value>) -> (r: Result<Vec<Value>, String>)
    ensures
        first@ == second@ ==> r == Ok::<Vec<Value>, String>(first),
        first@ != second@ ==> (r matches Err(m) && m@ == "oracle nondeterminism across fresh workers"@),
{
    if first.len() != second.len() {
        return err("oracle nondeterminism across fresh workers");
    }
    let mut i: usize = 0;
    while i < first.len()
        invariant
            0 <= i <= first@.len(),
            first@.len() == second@.len(),
            forall|j: int| 0 <= j < i ==> first@[j] == second@[j],
        decreases first@.len() - i,
    {
        if first[i] != second[i] {
            return err("oracle nondeterminism across fresh workers");
        }
        i += 1;
    }
    assert(first@ =~= second@);
    Ok(first)
}

/// Batch `k` of `n` inputs: the `k`th range of `MAX_BATCH` inputs, cut
/// at `n`.
pub open spec fn batch_range(n: nat, k: int) -> (usize, usize) {
    let start = k * MAX_BATCH;
    let end = if start + MAX_BATCH < n {
        start + MAX_BATCH
    } else {
        n as int
    };
    (start as usize, end as usize)
}

/// The ranges of the batches of `n` inputs: as many as it takes to cover
/// them, each of `MAX_BATCH` inputs but the last, in order.
pub fn batches(n: usize) -> (r: Vec<(usize, usize)>)
    ensures
        r@.len() * MAX_BATCH >= n,
        r@.len() == 0 || (r@.len() - 1) * MAX_BATCH < n,
        forall|k: int| 0 <= k < r@.len() ==> (#[trigger] r@[k]) == batch_range(n as nat, k),
{
    let mut out: Vec<(usize, usize)> = Vec::new();
    let mut start: usize = 0;
    while start < n
        invariant
            start <= n,
            start < n ==> start == out@.len() * MAX_BATCH,
            start == n ==> out@.len() * MAX_BATCH >= n,
            out@.len() == 0 || (out@.len() - 1) * MAX_BATCH < n,
            forall|k: int| 0 <= k < out@.len() ==> (#[trigger] out@[k]) == batch_range(n as nat, k),
        decreases n - start,
    {
        let end = if n - start > MAX_BATCH {
            start + MAX_BATCH
        } else {
            n
        };
        out.push((start, end));
        start = end;
    }
    out
}

/// An oracle: a fixture computed by the library, or a native target.
pub enum Oracle {
    Fixture(String),
    Binary(Box<BinaryOracle>),
}

impl Oracle {
    /// The identity of the target under the corpus name `name`.
    pub fn identity(&self, name: &str) -> (r: Result<TargetIdentity, String>)
        ensures
            self matches Oracle::Binary(o) ==> r matches Ok(t) && t.name@ == name@ && t.signature.view_pair()
                == o.signature_view().view_pair() && t.contract@ == native_contract() && t.implementation_fingerprint@
                == sha256_hex(identity_bytes(o.identity_view())),
            self matches Oracle::Fixture(n) ==> (r is Ok <==> crate::fixtures::fixture_args(n@) is Some),
    {
        match self {
            Oracle::Fixture(n) => TargetIdentity::fixture(n.as_str()),
            Oracle::Binary(o) => Ok(o.target_identity(name)),
        }
    }

    /// `fixture` or `binary`.
    pub fn scope(&self) -> (r: &'static str)
        ensures
            self is Fixture ==> r@ == "fixture"@,
            self is Binary ==> r@ == "binary"@,
    {
        match self {
            Oracle::Fixture(_) => "fixture",
            Oracle::Binary(_) => "binary",
        }
    }
}

} // verus!
