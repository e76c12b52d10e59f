use gremlin::binary::BinaryContract;
use gremlin::digest::hash;
use gremlin::native::{
    agree, batches, check_target, BinaryOracle, Oracle, Response, SandboxFacts, MAX_BATCH,
};
use gremlin::sig::Signature;
use gremlin::types::{Type, Value};

fn u16le(out: &mut Vec<u8>, v: u16) {
    out.extend_from_slice(&v.to_le_bytes());
}
fn u32le(out: &mut Vec<u8>, v: u32) {
    out.extend_from_slice(&v.to_le_bytes());
}
fn u64le(out: &mut Vec<u8>, v: u64) {
    out.extend_from_slice(&v.to_le_bytes());
}

#[allow(clippy::too_many_arguments)]
fn section(
    out: &mut Vec<u8>,
    name: u32,
    kind: u32,
    flags: u64,
    offset: u64,
    size: u64,
    link: u32,
    info: u32,
    align: u64,
    entsize: u64,
) {
    u32le(out, name);
    u32le(out, kind);
    u64le(out, flags);
    u64le(out, 0);
    u64le(out, offset);
    u64le(out, size);
    u32le(out, link);
    u32le(out, info);
    u64le(out, align);
    u64le(out, entsize);
}

/// A shared object with one defined dynamic symbol `f` and no code.
fn shared_object() -> Vec<u8> {
    let dynstr: &[u8] = b"\0f\0";
    let shstrtab: &[u8] = b"\0.dynsym\0.dynstr\0.shstrtab\0";
    let dynsym_off = 64u64;
    let mut dynsym = vec![0u8; 24];
    u32le(&mut dynsym, 1);
    dynsym.push(0x12);
    dynsym.push(0);
    u16le(&mut dynsym, 1);
    u64le(&mut dynsym, 0x1000);
    u64le(&mut dynsym, 4);
    let dynstr_off = dynsym_off + dynsym.len() as u64;
    let shstr_off = dynstr_off + dynstr.len() as u64;
    let sh_off = (shstr_off + shstrtab.len() as u64 + 7) / 8 * 8;
    let mut out = Vec::new();
    out.extend_from_slice(&[0x7f, b'E', b'L', b'F', 2, 1, 1, 0]);
    out.extend_from_slice(&[0; 8]);
    u16le(&mut out, 3);
    u16le(&mut out, 62);
    u32le(&mut out, 1);
    u64le(&mut out, 0);
    u64le(&mut out, 0);
    u64le(&mut out, sh_off);
    u32le(&mut out, 0);
    u16le(&mut out, 64);
    u16le(&mut out, 56);
    u16le(&mut out, 0);
    u16le(&mut out, 64);
    u16le(&mut out, 4);
    u16le(&mut out, 3);
    out.extend_from_slice(&dynsym);
    out.extend_from_slice(dynstr);
    out.extend_from_slice(shstrtab);
    while (out.len() as u64) < sh_off {
        out.push(0);
    }
    section(&mut out, 0, 0, 0, 0, 0, 0, 0, 0, 0);
    section(&mut out, 1, 11, 2, dynsym_off, dynsym.len() as u64, 2, 1, 8, 24);
    section(&mut out, 9, 3, 2, dynstr_off, dynstr.len() as u64, 0, 0, 1, 0);
    section(&mut out, 17, 3, 0, shstr_off, shstrtab.len() as u64, 0, 0, 1, 0);
    out
}

fn contract(data: &[u8], symbol: &str) -> BinaryContract {
    BinaryContract {
        path: "target.so".to_string(),
        sha256: hash(data).to_uppercase(),
        architecture: "x86_64".to_string(),
        format: "elf".to_string(),
        symbol: symbol.to_string(),
        abi: "sysv64".to_string(),
        environment: "empty".to_string(),
        wall_timeout_ms: 1000,
        cpu_seconds: 1,
        memory_mb: 64,
    }
}

fn signature() -> Signature {
    Signature {
        arguments: vec![Type::U32],
        return_type: Type::U32,
    }
}

fn facts() -> SandboxFacts {
    SandboxFacts {
        worker_sha256: "w".repeat(64),
        sandbox_version: "bubblewrap 0.8.0".to_string(),
        sandbox_sha256: "s".repeat(64),
        runtime_files: vec![("/lib/x86_64-linux-gnu/libc.so.6".to_string(), "c".repeat(64))],
        kernel: "Linux 6.1.0 x86_64".to_string(),
    }
}

#[test]
fn target_checks_digest_header_and_export() {
    let data = shared_object();
    let digest = check_target(&contract(&data, "f"), &signature(), &data).unwrap();
    assert_eq!(digest, hash(&data));
    assert_eq!(
        check_target(&contract(&data, "g"), &signature(), &data).unwrap_err(),
        "missing exported symbol g"
    );
    let mut other = data.clone();
    other[40] ^= 1;
    assert_eq!(
        check_target(&contract(&data, "f"), &signature(), &other).unwrap_err(),
        "binary SHA-256 mismatch"
    );
    let mut wrong_machine = data.clone();
    wrong_machine[18] = 40;
    assert_eq!(
        check_target(&contract(&wrong_machine, "f"), &signature(), &wrong_machine).unwrap_err(),
        "expected ELF64 little-endian x86-64 shared object (ET_DYN)"
    );
    let mut bad = contract(&data, "f");
    bad.wall_timeout_ms = 0;
    assert!(check_target(&bad, &signature(), &data).is_err());
}

#[test]
fn worker_replies_are_checked() {
    let data = shared_object();
    let oracle = BinaryOracle::new(
        contract(&data, "f"),
        signature(),
        "/usr/lib/gremlin/worker".to_string(),
        &data,
        facts(),
    )
    .unwrap();
    assert_eq!(oracle.identity().binary_sha256, hash(&data));
    let good = Response {
        values: vec![Value::new(Type::U32, 7), Value::new(Type::U32, 9)],
        error: None,
    };
    assert_eq!(oracle.accept_response(good.clone(), 2).unwrap(), good.values);
    assert_eq!(
        oracle.accept_response(good.clone(), 3).unwrap_err(),
        "worker result count/type mismatch"
    );
    let wrong_type = Response {
        values: vec![Value::new(Type::U8, 7)],
        error: None,
    };
    assert_eq!(
        oracle.accept_response(wrong_type, 1).unwrap_err(),
        "worker result count/type mismatch"
    );
    let failed = Response {
        values: vec![],
        error: Some("target crashed".to_string()),
    };
    assert_eq!(oracle.accept_response(failed, 0).unwrap_err(), "target crashed");
}

#[test]
fn target_identity_fingerprints_the_setup() {
    let data = shared_object();
    let a = BinaryOracle::new(
        contract(&data, "f"),
        signature(),
        "/worker".to_string(),
        &data,
        facts(),
    )
    .unwrap();
    let mut changed = facts();
    changed.kernel = "Linux 6.2.0 x86_64".to_string();
    let b = BinaryOracle::new(contract(&data, "f"), signature(), "/worker".to_string(), &data, changed)
        .unwrap();
    let ta = a.target_identity("t");
    let tb = b.target_identity("t");
    assert_eq!(ta.name, "t");
    assert_eq!(ta.signature, signature());
    assert_eq!(ta.implementation_fingerprint.len(), 64);
    assert_ne!(ta.implementation_fingerprint, tb.implementation_fingerprint);
    assert_eq!(ta.implementation_fingerprint, a.target_identity("u").implementation_fingerprint);
    assert!(ta.contract.starts_with("pure deterministic total integer return"));
    let oracle = Oracle::Binary(Box::new(a));
    assert_eq!(oracle.scope(), "binary");
    assert_eq!(oracle.identity("t").unwrap(), ta);
    let fixture = Oracle::Fixture("increment_u64".to_string());
    assert_eq!(fixture.scope(), "fixture");
    assert_eq!(fixture.identity("x").unwrap().name, "increment_u64");
    assert!(Oracle::Fixture("nothing".to_string()).identity("x").is_err());
}

#[test]
fn repeated_runs_must_agree_and_batches_cover_the_inputs() {
    let a = vec![Value::new(Type::U8, 1), Value::new(Type::U8, 2)];
    assert_eq!(agree(a.clone(), &a).unwrap(), a);
    let b = vec![Value::new(Type::U8, 1), Value::new(Type::U8, 3)];
    assert_eq!(
        agree(a.clone(), &b).unwrap_err(),
        "oracle nondeterminism across fresh workers"
    );
    assert_eq!(
        agree(a, &vec![]).unwrap_err(),
        "oracle nondeterminism across fresh workers"
    );
    assert!(batches(0).is_empty());
    assert_eq!(batches(5), vec![(0, 5)]);
    assert_eq!(
        batches(MAX_BATCH * 2 + 1),
        vec![(0, MAX_BATCH), (MAX_BATCH, MAX_BATCH * 2), (MAX_BATCH * 2, MAX_BATCH * 2 + 1)]
    );
    assert_eq!(batches(MAX_BATCH), vec![(0, MAX_BATCH)]);
}

#[test]
fn identity_is_rechecked_before_a_run() {
    let data = shared_object();
    let oracle = BinaryOracle::new(
        contract(&data, "f"),
        signature(),
        "/usr/lib/gremlin/worker".to_string(),
        &data,
        facts(),
    )
    .unwrap();
    let binary = hash(&data);
    let worker = "w".repeat(64);
    let sandbox = "s".repeat(64);
    let files = vec!["c".repeat(64)];
    assert!(oracle.recheck(&binary, &worker, &sandbox, &files).is_ok());
    assert_eq!(
        oracle.recheck(&"0".repeat(64), &worker, &sandbox, &files).unwrap_err(),
        "binary changed since identity was established"
    );
    assert_eq!(
        oracle.recheck(&binary, &"x".repeat(64), &sandbox, &files).unwrap_err(),
        "worker or sandbox executable changed during run"
    );
    assert_eq!(
        oracle.recheck(&binary, &worker, &sandbox, &vec!["d".repeat(64)]).unwrap_err(),
        "runtime dependency changed: /lib/x86_64-linux-gnu/libc.so.6"
    );
}
