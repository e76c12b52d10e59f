//! Binding an exported symbol to the ELF loader's own tables: the dynamic
//! segment, the dynamic symbol and string tables, and the GNU or SysV hash
//! lookup that the loader performs.
use vstd::bytes::{
    spec_u16_from_le_bytes, spec_u32_from_le_bytes, spec_u64_from_le_bytes, u16_from_le_bytes,
    u32_from_le_bytes, u64_from_le_bytes,
};
use vstd::prelude::*;
use vstd::utf8::encode_utf8;

use crate::cuda::copy_span;
use crate::text::err;

verus! {

pub open spec fn le16(d: Seq<u8>, o: int) -> u16 {
    spec_u16_from_le_bytes(d.subrange(o, o + 2))
}

pub open spec fn le32(d: Seq<u8>, o: int) -> u32 {
    spec_u32_from_le_bytes(d.subrange(o, o + 4))
}

pub open spec fn le64(d: Seq<u8>, o: int) -> u64 {
    spec_u64_from_le_bytes(d.subrange(o, o + 8))
}

/// A symbol record at `s` of `data` that defines `name` as a global or
/// weak function at `entry` of `size` bytes, with default or protected
/// visibility, in a regular section; its name is the NUL-terminated string
/// at its name offset from `strings`.
pub open spec fn symbol_binds(
    data: Seq<u8>,
    s: int,
    strings: int,
    name: Seq<u8>,
    entry: u64,
    size: u64,
) -> bool {
    let t = strings + le32(data, s);
    &&& 0 <= s
    &&& s + 24 <= data.len()
    &&& le64(data, s + 8) == entry
    &&& le64(data, s + 16) == size
    &&& data[s + 4] % 16 == 2
    &&& (data[s + 4] / 16 == 1 || data[s + 4] / 16 == 2)
    &&& (data[s + 5] == 0 || data[s + 5] == 3)
    &&& le16(data, s + 6) != 0
    &&& le16(data, s + 6) < 0xff00
    &&& 0 <= strings
    &&& 0 <= t
    &&& t + name.len() < data.len()
    &&& data.subrange(t, t + name.len()) == name
    &&& data[t + name.len()] == 0
}

/// The file holds a symbol record that binds `name` to the function at
/// `entry` of `size` bytes.
pub open spec fn has_binding_record(data: Seq<u8>, name: Seq<u8>, entry: u64, size: u64) -> bool {
    exists|s: int, strings: int| symbol_binds(data, s, strings, name, entry, size)
}

fn rd16(d: &[u8], o: usize) -> (r: u16)
    requires
        o + 2 <= d@.len(),
    ensures
        r == le16(d@, o as int),
{
    let v = copy_span(d, o, 2);
    u16_from_le_bytes(v.as_slice())
}

fn rd32(d: &[u8], o: usize) -> (r: u32)
    requires
        o + 4 <= d@.len(),
    ensures
        r == le32(d@, o as int),
{
    let v = copy_span(d, o, 4);
    u32_from_le_bytes(v.as_slice())
}

fn rd64(d: &[u8], o: usize) -> (r: u64)
    requires
        o + 8 <= d@.len(),
    ensures
        r == le64(d@, o as int),
{
    let v = copy_span(d, o, 8);
    u64_from_le_bytes(v.as_slice())
}

/// The start of the `size` bytes at file offset `offset`.
fn range(d: &[u8], offset: u64, size: u64) -> (r: Result<usize, String>)
    ensures
        r matches Ok(a) ==> a == offset && a + size <= d@.len(),
        r is Ok <==> offset + size <= d@.len(),
{
    assert(d@.len() == d.len() && d.len() <= usize::MAX && usize::MAX <= u64::MAX);
    let end = match offset.checked_add(size) {
        None => {
            return err("ELF range overflow");
        },
        Some(e) => e,
    };
    if offset > usize::MAX as u64 || end > usize::MAX as u64 {
        return err("ELF offset overflow");
    }
    if end as usize > d.len() {
        return err("ELF range outside file");
    }
    Ok(offset as usize)
}

/// The `n` bytes at `a` equal the `n` bytes at `b`.
fn same_span(d: &[u8], a: usize, b: usize, n: usize) -> (r: bool)
    requires
        a + n <= d@.len(),
        b + n <= d@.len(),
    ensures
        r == (d@.subrange(a as int, a + n) == d@.subrange(b as int, b + n)),
{
    let mut i: usize = 0;
    while i < n
        invariant
            0 <= i <= n,
            a + n <= d@.len(),
            b + n <= d@.len(),
            d@.len() == d.len(),
            forall|k: int| 0 <= k < i ==> #[trigger] d@.subrange(a as int, a + n)[k] == d@.subrange(b as int, b + n)[k],
        decreases n - i,
    {
        if d[a + i] != d[b + i] {
            assert(d@.subrange(a as int, a + n)[i as int] != d@.subrange(b as int, b + n)[i as int]);
            return false;
        }
        i += 1;
    }
    assert(d@.subrange(a as int, a + n) =~= d@.subrange(b as int, b + n));
    true
}

/// Where the loader maps the `size` bytes at virtual `address`: the file
/// offset of the one file-backed load segment that holds them, when the
/// page holding them has no conflicting mappings.
fn loaded(data: &[u8], address: u64, size: u64) -> (r: Result<usize, String>)
    requires
        data@.len() >= 64,
    ensures
        r matches Ok(o) ==> o + size <= data@.len(),
{
    let phoff = rd64(data, 32);
    let count = rd16(data, 56) as u64;
    assert(data@.len() == data.len());
    let end = match address.checked_add(size) {
        None => {
            return err("mapped range overflow");
        },
        Some(e) => e,
    };
    let mut result: Option<usize> = None;
    let mut page_delta: Option<(bool, u64)> = None;
    let mut n: u64 = 0;
    while n < count
        invariant
            0 <= n <= count,
            count < 65536,
            data@.len() >= 64,
            data@.len() == data.len(),
            result matches Some(o) ==> o + size <= data@.len(),
        decreases count - n,
    {
        let at = match phoff.checked_add(n * 56) {
            None => {
                return err("program header overflow");
            },
            Some(x) => x,
        };
        let p = range(data, at, 56)?;
        if rd32(data, p) != 1 {
            n += 1;
            continue;
        }
        let offset = rd64(data, p + 8);
        let base = rd64(data, p + 16);
        let filesz = rd64(data, p + 32);
        let memsz = rd64(data, p + 40);
        if filesz != memsz || offset % 4096 != base % 4096 || rd64(data, p + 48) != 4096 || rd32(
            data,
            p + 4,
        ) & 4 == 0 {
            return err("unsupported ELF load alignment or file size");
        }
        range(data, offset, filesz)?;
        let segment_end = match base.checked_add(filesz) {
            None => {
                return err("segment overflow");
            },
            Some(x) => x,
        };
        if filesz != 0 {
            let end_page = match end.checked_add(4095) {
                None => {
                    return err("page overflow");
                },
                Some(x) => x & !4095u64,
            };
            if (base & !4095u64) < end_page {
                let segment_page = match segment_end.checked_add(4095) {
                    None => {
                        return err("page overflow");
                    },
                    Some(x) => x & !4095u64,
                };
                if segment_page > (address & !4095u64) {
                    // The signed difference `offset - base`, as its sign and magnitude.
                    let delta = if offset >= base {
                        (true, offset - base)
                    } else {
                        (false, base - offset)
                    };
                    match page_delta {
                        Some(old) => {
                            if old.0 != delta.0 || old.1 != delta.1 {
                                return err("metadata page has conflicting load mappings");
                            }
                        },
                        None => {},
                    }
                    page_delta = Some(delta);
                }
            }
        }
        if address >= base && end <= segment_end {
            if result.is_some() {
                return err("ambiguous metadata load mapping");
            }
            let at = match offset.checked_add(address - base) {
                None => {
                    return err("load offset overflow");
                },
                Some(x) => x,
            };
            result = Some(range(data, at, size)?);
        }
        n += 1;
    }
    match result {
        None => err("metadata is outside file-backed load mapping"),
        Some(o) => Ok(o),
    }
}

/// A section: the file offset of its header, and the file offset and
/// length of its bytes.
#[derive(Clone, Copy)]
struct Section {
    header: usize,
    start: usize,
    len: usize,
}

fn section(data: &[u8], headers: &Vec<usize>, index: usize) -> (r: Result<Section, String>)
    requires
        data@.len() >= 64,
        forall|k: int| 0 <= k < headers@.len() ==> #[trigger] headers@[k] + 64 <= data@.len(),
    ensures
        r matches Ok(s) ==> s.header + 64 <= data@.len() && s.start + s.len <= data@.len(),
        r matches Ok(s) ==> s.header == headers@[index as int] && s.start == le64(data@, s.header + 24)
            && s.len == le64(data@, s.header + 32),
        index >= headers@.len() ==> r is Err,
{
    if index >= headers.len() {
        return err("invalid section link");
    }
    let header = headers[index];
    assert(data@.len() == data.len());
    let size = rd64(data, header + 32);
    let start = range(data, rd64(data, header + 24), size)?;
    let len = size as usize;
    let mapped = loaded(data, rd64(data, header + 16), len as u64)?;
    if !same_span(data, mapped, start, len) {
        return err("ELF metadata section differs from loaded bytes");
    }
    Ok(Section { header, start, len })
}

/// The value of the first tag `key`, if any.
pub open spec fn first_tag(tags: Seq<(u64, u64)>, key: u64) -> Option<u64>
    decreases tags.len(),
{
    if tags.len() == 0 {
        None
    } else if tags[0].0 == key {
        Some(tags[0].1)
    } else {
        first_tag(tags.skip(1), key)
    }
}

/// The value of the first tag `key` among the dynamic tags.
fn tag_get(tags: &Vec<(u64, u64)>, key: u64) -> (r: Option<u64>)
    ensures
        r == first_tag(tags@, key),
{
    let mut i: usize = 0;
    assert(tags@.skip(0) =~= tags@);
    while i < tags.len()
        invariant
            0 <= i <= tags@.len(),
            first_tag(tags@, key) == first_tag(tags@.skip(i as int), key),
        decreases tags@.len() - i,
    {
        assert(tags@.skip(i as int)[0] == tags@[i as int]);
        assert(tags@.skip(i as int).skip(1) =~= tags@.skip(i + 1));
        if tags[i].0 == key {
            return Some(tags[i].1);
        }
        i += 1;
    }
    None
}

/// The file offset of the symbol record `index` of the dynamic symbol
/// table `symbols`.
fn symbol_at(symbols: Section, index: usize) -> (r: Result<usize, String>)
    ensures
        r matches Ok(o) ==> o == symbols.start + 24 * index && 24 * index + 24 <= symbols.len,
        r is Ok <==> 24 * index + 24 <= symbols.len && symbols.start + 24 * index <= usize::MAX,
{
    let lo = match index.checked_mul(24) {
        None => {
            return err("symbol index overflow");
        },
        Some(x) => x,
    };
    let hi = match index.checked_add(1) {
        None => {
            return err("symbol index overflow");
        },
        Some(x) => match x.checked_mul(24) {
            None => {
                return err("symbol index overflow");
            },
            Some(y) => y,
        },
    };
    if hi > symbols.len {
        return err("hash lookup exceeds dynamic symbol table");
    }
    if symbols.start > usize::MAX - lo {
        return err("hash lookup exceeds dynamic symbol table");
    }
    Ok(symbols.start + lo)
}

/// Symbol `index` is named `name` and is a defined global or weak symbol.
#[verifier::loop_isolation(false)]
fn symbol_matches(data: &[u8], symbols: Section, strings: Section, name: &[u8], index: usize) -> (r: Result<
    bool,
    String,
>)
    requires
        symbols.start + symbols.len <= data@.len(),
        strings.start + strings.len <= data@.len(),
    ensures
        r is Ok <==> 24 * index + 24 <= symbols.len && symbols.start + 24 * index <= usize::MAX
            && le32(data@, symbols.start + 24 * index) <= strings.len && exists|e: int|
            strings.start + le32(data@, symbols.start + 24 * index) <= e < strings.start + strings.len
                && #[trigger] data@[e] == 0,
        r matches Ok(b) ==> b == (names_symbol(data@, symbols, strings, name@, index as int) && forall|
            k: int,
        | 0 <= k < name@.len() ==> #[trigger] name@[k] != 0),
{
    let s = symbol_at(symbols, index)?;
    assert(data@.len() == data.len());
    let offset = rd32(data, s) as usize;
    if offset > strings.len {
        return err("symbol name outside string table");
    }
    let text = strings.start + offset;
    let stop = strings.start + strings.len;
    let mut end = text;
    while end < stop && data[end] != 0
        invariant
            text <= end <= stop,
            stop <= data@.len(),
            data@.len() == data.len(),
            forall|k: int| text <= k < end ==> #[trigger] data@[k] != 0,
        decreases stop - end,
    {
        end += 1;
    }
    if end == stop {
        return err("unterminated symbol name");
    }
    assert(data@[end as int] == 0);
    assert(s == symbols.start + 24 * index);
    assert(text == strings.start + le32(data@, symbols.start + 24 * index));
    if end - text != name.len() {
        proof {
            if names_symbol(data@, symbols, strings, name@, index as int) && forall|k: int|
                0 <= k < name@.len() ==> #[trigger] name@[k] != 0 {
                if end - text < name@.len() {
                    let k = end - text;
                    assert(data@.subrange(text as int, text + name@.len())[k] == data@[end as int]);
                } else {
                    assert(data@[text + name@.len()] == 0);
                }
            }
        }
        return Ok(false);
    }
    let mut i: usize = 0;
    while i < name.len()
        invariant
            0 <= i <= name@.len(),
            text + name@.len() == end,
            end < data@.len(),
            forall|k: int| 0 <= k < i ==> data@[text + k] == #[trigger] name@[k],
        decreases name@.len() - i,
    {
        if data[text + i] != name[i] {
            proof {
                assert(data@.subrange(text as int, text + name@.len())[i as int] == data@[text + i]);
            }
            return Ok(false);
        }
        i += 1;
    }
    assert(data@.subrange(text as int, text + name@.len()) =~= name@);
    assert forall|k: int| 0 <= k < name@.len() implies #[trigger] name@[k] != 0 by {
        assert(data@[text + k] == name@[k]);
    }
    let info = data[s + 4];
    assert(info >> 4u8 == info / 16) by (bit_vector);
    Ok(rd16(data, s + 6) != 0 && (info >> 4u8 == 1 || info >> 4u8 == 2))
}

/// Symbol `index` of `symbols` is a defined global or weak symbol whose
/// name in `strings` is `name`.
spec fn names_symbol(data: Seq<u8>, symbols: Section, strings: Section, name: Seq<u8>, index: int) -> bool {
    let s = symbols.start + 24 * index;
    let t = strings.start + le32(data, s);
    &&& 0 <= index
    &&& 24 * index + 24 <= symbols.len
    &&& t + name.len() < data.len()
    &&& data.subrange(t, t + name.len()) == name
    &&& data[t + name.len()] == 0
    &&& le16(data, s + 6) != 0
    &&& (data[s + 4] / 16 == 1 || data[s + 4] / 16 == 2)
}

fn tag_is(tags: &Vec<(u64, u64)>, key: u64, value: u64) -> (r: bool)
    ensures
        r == (first_tag(tags@, key) == Some(value)),
{
    match tag_get(tags, key) {
        Some(v) => v == value,
        None => false,
    }
}

/// The section header at `h` is of type `kind` at virtual `address`.
spec fn header_is(data: Seq<u8>, h: int, kind: u32, address: u64) -> bool {
    le32(data, h + 4) == kind && le64(data, h + 16) == address
}

/// Exactly the header at position `k` is of type `kind` at `address`.
spec fn only_header(data: Seq<u8>, headers: Seq<usize>, kind: u32, address: u64, k: int) -> bool {
    &&& 0 <= k < headers.len()
    &&& header_is(data, headers[k] as int, kind, address)
    &&& forall|j: int|
        0 <= j < headers.len() && header_is(data, #[trigger] headers[j] as int, kind, address) ==> j == k
}

/// The one section of type `kind` at virtual `address`.
fn table(data: &[u8], headers: &Vec<usize>, kind: u32, address: u64) -> (r: Result<Section, String>)
    requires
        data@.len() >= 64,
        forall|k: int| 0 <= k < headers@.len() ==> #[trigger] headers@[k] + 64 <= data@.len(),
    ensures
        r matches Ok(s) ==> s.header + 64 <= data@.len() && s.start + s.len <= data@.len(),
        r matches Ok(s) ==> exists|k: int|
            #[trigger] only_header(data@, headers@, kind, address, k) && s.header == headers@[k],
        (forall|k: int| !#[trigger] only_header(data@, headers@, kind, address, k)) ==> r is Err,
{
    assert(data@.len() == data.len());
    let mut found: usize = 0;
    let mut count: usize = 0;
    let mut i: usize = 0;
    while i < headers.len()
        invariant
            0 <= i <= headers@.len(),
            count <= i,
            data@.len() >= 64,
            data@.len() == data.len(),
            forall|k: int| 0 <= k < headers@.len() ==> #[trigger] headers@[k] + 64 <= data@.len(),
            count == 0 ==> forall|j: int|
                0 <= j < i ==> !header_is(data@, #[trigger] headers@[j] as int, kind, address),
            count >= 1 ==> found < i && header_is(data@, headers@[found as int] as int, kind, address),
            count == 1 ==> forall|j: int|
                0 <= j < i && header_is(data@, #[trigger] headers@[j] as int, kind, address) ==> j == found,
            count >= 2 ==> exists|j: int|
                0 <= j < i && j != found && header_is(data@, #[trigger] headers@[j] as int, kind, address),
        decreases headers@.len() - i,
    {
        let h = headers[i];
        if rd32(data, h + 4) == kind && rd64(data, h + 16) == address {
            assert(header_is(data@, headers@[i as int] as int, kind, address));
            if count == 0 {
                found = i;
            }
            count += 1;
        }
        i += 1;
    }
    if count != 1 {
        proof {
            if count >= 2 {
                let j = choose|j: int|
                    0 <= j < i && j != found && header_is(data@, #[trigger] headers@[j] as int, kind, address);
                assert forall|k: int| !#[trigger] only_header(data@, headers@, kind, address, k) by {
                    if only_header(data@, headers@, kind, address, k) {
                        assert(j == k);
                        assert(found == k);
                    }
                }
            } else {
                assert forall|k: int| !#[trigger] only_header(data@, headers@, kind, address, k) by {
                    if only_header(data@, headers@, kind, address, k) {
                        assert(!header_is(data@, headers@[k] as int, kind, address));
                    }
                }
            }
        }
        return err("hash table does not match ELF section metadata");
    }
    assert(only_header(data@, headers@, kind, address, found as int));
    section(data, headers, found)
}

/// The symbol that the loader's GNU hash lookup resolves for `name`.
#[verifier::loop_isolation(false)]
fn gnu_lookup(data: &[u8], t: Section, symbols: Section, strings: Section, name: &[u8], count: usize) -> (r: Result<
    usize,
    String,
>)
    requires
        t.start + t.len <= data@.len(),
        symbols.start + symbols.len <= data@.len(),
        strings.start + strings.len <= data@.len(),
    ensures
        r matches Ok(k) ==> names_symbol(data@, symbols, strings, name@, k as int),
{
    assert(data@.len() == data.len());
    if t.len < 16 {
        return err("truncated GNU hash header");
    }
    let buckets = rd32(data, t.start) as usize;
    let first = rd32(data, t.start + 4) as usize;
    let bloom = rd32(data, t.start + 8) as usize;
    let shift = rd32(data, t.start + 12);
    if buckets == 0 || first > count || bloom == 0 || bloom & (bloom - 1) != 0 || shift >= 32 {
        return err("invalid GNU hash dimensions");
    }
    let bloom_bytes = match bloom.checked_mul(8) {
        None => {
            return err("GNU bloom overflow");
        },
        Some(x) => x,
    };
    let bucket_offset = match 16usize.checked_add(bloom_bytes) {
        None => {
            return err("GNU hash overflow");
        },
        Some(x) => x,
    };
    let bucket_bytes = match buckets.checked_mul(4) {
        None => {
            return err("GNU bucket overflow");
        },
        Some(x) => x,
    };
    let chain_offset = match bucket_offset.checked_add(bucket_bytes) {
        None => {
            return err("GNU hash overflow");
        },
        Some(x) => x,
    };
    let chain_bytes = match (count - first).checked_mul(4) {
        None => {
            return err("GNU chain overflow");
        },
        Some(x) => x,
    };
    let expected = match chain_offset.checked_add(chain_bytes) {
        None => {
            return err("GNU hash overflow");
        },
        Some(x) => x,
    };
    if t.len != expected {
        return err("GNU hash chain count differs from dynamic symbols");
    }
    let mut hash: u32 = 5381;
    let mut i: usize = 0;
    while i < name.len()
        decreases name@.len() - i,
    {
        hash = hash.wrapping_mul(33).wrapping_add(name[i] as u32);
        i += 1;
    }
    let slot = (hash as usize / 64) & (bloom - 1);
    let b1 = bloom - 1;
    let h64 = hash as usize / 64;
    assert(h64 & b1 <= b1) by (bit_vector);
    let word = rd64(data, t.start + 16 + slot * 8);
    let mask = (1u64 << ((hash % 64) as u64)) | (1u64 << (((hash as u64) >> (shift as u64)) % 64));
    if word & mask != mask {
        return err("export absent from GNU hash bloom filter");
    }
    let mut index = rd32(data, t.start + bucket_offset + (hash as usize % buckets) * 4) as usize;
    if index == 0 || index < first {
        return err("export absent from GNU hash bucket");
    }
    while index < count
        invariant
            first <= index,
            first <= count,
        decreases count - index,
    {
        let chain = rd32(data, t.start + chain_offset + (index - first) * 4);
        if chain | 1 == hash | 1 && symbol_matches(data, symbols, strings, name, index)? {
            return Ok(index);
        }
        if chain & 1 != 0 {
            break;
        }
        index += 1;
    }
    err("loader GNU hash lookup does not resolve the exported symbol")
}

/// The symbol that the loader's SysV hash lookup resolves for `name`.
#[verifier::loop_isolation(false)]
fn sysv_lookup(data: &[u8], t: Section, symbols: Section, strings: Section, name: &[u8], count: usize) -> (r: Result<
    usize,
    String,
>)
    requires
        t.start + t.len <= data@.len(),
        symbols.start + symbols.len <= data@.len(),
        strings.start + strings.len <= data@.len(),
    ensures
        r matches Ok(k) ==> names_symbol(data@, symbols, strings, name@, k as int),
{
    assert(data@.len() == data.len());
    if t.len < 8 {
        return err("truncated SysV hash header");
    }
    let buckets = rd32(data, t.start) as usize;
    let chains = rd32(data, t.start + 4) as usize;
    if buckets == 0 || chains != count {
        return err("SysV hash dimensions differ from dynamic symbols");
    }
    let total = match buckets.checked_add(chains) {
        None => None,
        Some(n) => n.checked_mul(4),
    };
    let total = match total {
        None => {
            return err("SysV hash size overflow");
        },
        Some(x) => x,
    };
    match 8usize.checked_add(total) {
        Some(x) => {
            if x != t.len {
                return err("SysV hash dimensions differ from dynamic symbols");
            }
        },
        None => {
            return err("SysV hash dimensions differ from dynamic symbols");
        },
    }
    let mut hash: u32 = 0;
    let mut i: usize = 0;
    while i < name.len()
        decreases name@.len() - i,
    {
        let h = hash.wrapping_shl(4).wrapping_add(name[i] as u32);
        let g = h & 0xf000_0000u32;
        hash = (h ^ (g >> 24u32)) & !g;
        i += 1;
    }
    let mut index = rd32(data, t.start + 8 + (hash as usize % buckets) * 4) as usize;
    let mut round: usize = 0;
    while round < count
        decreases count - round,
    {
        if index == 0 {
            break;
        }
        if index >= count {
            return err("SysV hash index outside symbol table");
        }
        if symbol_matches(data, symbols, strings, name, index)? {
            return Ok(index);
        }
        index = rd32(data, t.start + 8 + buckets * 4 + index * 4) as usize;
        round += 1;
    }
    err("loader SysV hash lookup does not resolve exported symbol")
}

/// Checks that the loader binds `name` to the modeled function: an ELF64
/// header with standard entry sizes; exactly one dynamic segment, loaded
/// at its own bytes, whose tags before the null tag are distinct;
/// section headers; exactly one dynamic symbol table and its string table,
/// both loaded at their bytes and named by the dynamic tags; the GNU hash
/// table, else the SysV hash table, resolving `name` as the loader does; and
/// the resolved symbol is a defined function at `entry` of `size` bytes.
pub fn validate(data: &[u8], name: &str, entry: u64, size: u64) -> (r: Result<(), String>)
    ensures
        r is Ok ==> has_binding_record(data@, encode_utf8(name@), entry, size),
{
    if data.len() < 64 || rd16(data, 54) != 56 || rd16(data, 58) != 64 {
        return err("unsupported ELF header sizes");
    }
    if data[6] != 1 || rd32(data, 20) != 1 || rd16(data, 52) != 64 {
        return err("unsupported ELF version/header");
    }
    assert(data@.len() == data.len());
    let phoff = rd64(data, 32);
    let phnum = rd16(data, 56) as u64;
    let mut dynamic: Option<(usize, usize)> = None;
    let mut n: u64 = 0;
    while n < phnum
        invariant
            0 <= n <= phnum,
            phnum < 65536,
            data@.len() >= 64,
            data@.len() == data.len(),
            dynamic matches Some(d) ==> d.0 + d.1 <= data@.len(),
        decreases phnum - n,
    {
        let at = match phoff.checked_add(n * 56) {
            None => {
                return err("program header overflow");
            },
            Some(x) => x,
        };
        let p = range(data, at, 56)?;
        if rd32(data, p) == 2 {
            if dynamic.is_some() {
                return err("multiple dynamic segments unsupported");
            }
            let sz = rd64(data, p + 32);
            let start = range(data, rd64(data, p + 8), sz)?;
            let mapped = loaded(data, rd64(data, p + 16), sz)?;
            if !same_span(data, mapped, start, sz as usize) {
                return err("dynamic segment differs from loaded bytes");
            }
            dynamic = Some((start, sz as usize));
        }
        n += 1;
    }
    let (dstart, dlen) = match dynamic {
        None => {
            return err("missing dynamic segment");
        },
        Some(d) => d,
    };
    let mut tags: Vec<(u64, u64)> = Vec::new();
    let mut terminated = false;
    let rows = dlen / 16;
    let mut row: usize = 0;
    while row < rows
        invariant
            0 <= row <= rows,
            rows * 16 <= dlen,
            dstart + dlen <= data@.len(),
            data@.len() == data.len(),
        decreases rows - row,
    {
        let o = dstart + 16 * row;
        let tag = rd64(data, o);
        if tag == 0 {
            terminated = true;
            break;
        }
        if tag_get(&tags, tag).is_some() {
            return err("duplicate dynamic tags unsupported");
        }
        tags.push((tag, rd64(data, o + 8)));
        row += 1;
    }
    if !terminated {
        return err("unterminated dynamic segment");
    }
    let shoff = rd64(data, 40);
    let shnum = rd16(data, 60) as u64;
    if shnum == 0 {
        return err("extended section numbering unsupported");
    }
    let mut headers: Vec<usize> = Vec::new();
    let mut k: u64 = 0;
    while k < shnum
        invariant
            0 <= k <= shnum,
            shnum < 65536,
            headers@.len() == k,
            data@.len() >= 64,
            forall|j: int| 0 <= j < headers@.len() ==> #[trigger] headers@[j] + 64 <= data@.len(),
        decreases shnum - k,
    {
        let at = match shoff.checked_add(k * 64) {
            None => {
                return err("section header overflow");
            },
            Some(x) => x,
        };
        let h = range(data, at, 64)?;
        headers.push(h);
        k += 1;
    }
    let mut dynsym: usize = 0;
    let mut found: usize = 0;
    let mut i: usize = 0;
    while i < headers.len()
        invariant
            0 <= i <= headers@.len(),
            found <= i,
            data@.len() >= 64,
            data@.len() == data.len(),
            forall|j: int| 0 <= j < headers@.len() ==> #[trigger] headers@[j] + 64 <= data@.len(),
        decreases headers@.len() - i,
    {
        if rd32(data, headers[i] + 4) == 11 {
            if found == 0 {
                dynsym = i;
            }
            found += 1;
        }
        i += 1;
    }
    if found != 1 {
        return err("exactly one dynamic symbol table is required");
    }
    let symbols = section(data, &headers, dynsym)?;
    if symbols.len % 24 != 0 || rd64(data, symbols.header + 56) != 24 || !tag_is(&tags, 11, 24)
        || !tag_is(&tags, 6, rd64(data, symbols.header + 16)) {
        return err("dynamic symbol table does not match loader metadata");
    }
    let strings = section(data, &headers, rd32(data, symbols.header + 40) as usize)?;
    if rd32(data, strings.header + 4) != 3 || !tag_is(&tags, 5, rd64(data, strings.header + 16))
        || !tag_is(&tags, 10, strings.len as u64) {
        return err("dynamic string table does not match loader metadata");
    }
    let count = symbols.len / 24;
    let wanted = name.as_bytes();
    let selected = match tag_get(&tags, 0x6fff_fef5) {
        Some(address) => {
            let t = table(data, &headers, 0x6fff_fff6, address)?;
            gnu_lookup(data, t, symbols, strings, wanted, count)?
        },
        None => match tag_get(&tags, 4) {
            Some(address) => {
                let t = table(data, &headers, 5, address)?;
                sysv_lookup(data, t, symbols, strings, wanted, count)?
            },
            None => {
                return err("missing supported loader symbol hash table");
            },
        },
    };
    let s = symbol_at(symbols, selected)?;
    let section_index = rd16(data, s + 6) as usize;
    let info = data[s + 4];
    let other = data[s + 5];
    if info & 15 != 2 || !(other == 0 || other == 3) || section_index == 0 || section_index
        >= headers.len() || section_index >= 0xff00 || rd64(data, s + 8) != entry || rd64(data, s + 16)
        != size {
        return err("loader-resolved symbol differs from modeled function");
    }
    assert(info & 15 == info % 16) by (bit_vector);
    assert(symbol_binds(data@, s as int, strings.start as int, encode_utf8(name@), entry, size));
    Ok(())
}

} // verus!
