//! The contract of a native binary target: where it is, what it is, and
//! the limits it runs under.
use vstd::prelude::*;

use crate::text::{chars_eq, chars_of, err};

verus! {

/// A native binary target.
#[derive(Clone, Debug, PartialEq, Eq)]
pub struct BinaryContract {
    pub path: String,
    pub sha256: String,
    pub architecture: String,
    pub format: String,
    pub symbol: String,
    pub abi: String,
    pub environment: String,
    pub wall_timeout_ms: u64,
    pub cpu_seconds: u64,
    pub memory_mb: u64,
}

/// An ASCII hexadecimal digit, in either case.
pub open spec fn is_hex_digit(c: char) -> bool {
    ('0' <= c <= '9') || ('a' <= c <= 'f') || ('A' <= c <= 'F')
}

/// What a valid binary contract satisfies.
pub open spec fn contract_ok(c: BinaryContract) -> bool {
    &&& c.architecture@ == "x86_64"@
    &&& c.format@ == "elf"@
    &&& c.abi@ == "sysv64"@
    &&& c.environment@ == "empty"@
    &&& c.path@.len() > 0
    &&& c.symbol@.len() > 0
    &&& !c.symbol@.contains('\0')
    &&& c.sha256@.len() == 64
    &&& forall|i: int| 0 <= i < 64 ==> is_hex_digit(#[trigger] c.sha256@[i])
    &&& 1 <= c.wall_timeout_ms <= 60000
    &&& 1 <= c.cpu_seconds <= 60
    &&& 32 <= c.memory_mb <= 4096
}

impl BinaryContract {
    /// Checks the target: x86-64 ELF, System V ABI, empty environment; a
    /// path, a symbol without NUL and a 64-digit SHA-256; and limits of
    /// 1..=60000 ms wall time, 1..=60 CPU seconds and 32..=4096 MB.
    pub fn validate(&self) -> (r: Result<(), String>)
        ensures
            r is Ok <==> contract_ok(*self),
    {
        let arch = chars_of(self.architecture.as_str());
        let format = chars_of(self.format.as_str());
        let abi = chars_of(self.abi.as_str());
        let env = chars_of(self.environment.as_str());
        if !chars_eq(&arch, &chars_of("x86_64")) || !chars_eq(&format, &chars_of("elf")) || !chars_eq(
            &abi,
            &chars_of("sysv64"),
        ) || !chars_eq(&env, &chars_of("empty")) {
            return err(
                "binary targets require architecture=x86_64, format=elf, abi=sysv64, environment=empty",
            );
        }
        let path = chars_of(self.path.as_str());
        let symbol = chars_of(self.symbol.as_str());
        let sha = chars_of(self.sha256.as_str());
        let mut has_nul = false;
        let mut i: usize = 0;
        while i < symbol.len()
            invariant
                0 <= i <= symbol@.len(),
                has_nul <==> exists|j: int| 0 <= j < i && symbol@[j] == '\0',
            decreases symbol@.len() - i,
        {
            if symbol[i] == '\0' {
                has_nul = true;
            }
            i += 1;
        }
        let mut all_hex = true;
        let mut k: usize = 0;
        while k < sha.len()
            invariant
                0 <= k <= sha@.len(),
                all_hex <==> forall|j: int| 0 <= j < k ==> is_hex_digit(#[trigger] sha@[j]),
            decreases sha@.len() - k,
        {
            let c = sha[k];
            if !(('0' <= c && c <= '9') || ('a' <= c && c <= 'f') || ('A' <= c && c <= 'F')) {
                all_hex = false;
            }
            k += 1;
        }
        assert(has_nul <==> symbol@.contains('\0'));
        if path.len() == 0 || symbol.len() == 0 || sha.len() != 64 || has_nul || !all_hex {
            return err("binary path, symbol, and 64-digit SHA-256 are required");
        }
        if self.wall_timeout_ms == 0 || self.wall_timeout_ms > 60000 || self.cpu_seconds == 0
            || self.cpu_seconds > 60 || self.memory_mb < 32 || self.memory_mb > 4096 {
            return err(
                "binary limits: wall_timeout_ms 1..60000, cpu_seconds 1..60, memory_mb 32..4096",
            );
        }
        Ok(())
    }
}

} // verus!
