use vstd::prelude::*;

use crate::error::ExtractError;
use crate::function::AsmFunction;
use crate::memmap::memmap_pairs;
use crate::memmap::seg_idx;
use crate::memmap::strictly_increasing;
use crate::memmap::MemoryMap;
use crate::memmap::SectionInput;
use crate::namespace::derive_namespace;
use crate::namespace::namespace_of;
use crate::util::hex_chars_value;
use crate::util::parse_u32_hex;
use crate::util::strip_hex_prefix;
use crate::util::valid_hex_u32;

verus! {

/// Raw description of one function entry as the export metadata gives it:
/// attribute strings, absent attributes as `None`, and whether the entry has
/// an address range element at all.
pub struct FunctionInput {
    /// The symbol name.
    pub name: Option<String>,
    /// Whether the entry carries an address range.
    pub has_range: bool,
    /// Address of the first byte, in hexadecimal.
    pub start: Option<String>,
    /// Address of the last byte, inclusive, in hexadecimal.
    pub end: Option<String>,
}

/// Everything one compiled module hands to the extractor: the consumed
/// metadata fields, absent elements as `None`, and the raw big-endian memory
/// image read from the module's byte dump.
pub struct ModuleInput {
    /// The program name the metadata reports.
    pub program_name: Option<String>,
    /// The path-like property the namespace is derived from.
    pub fsrl: Option<String>,
    /// The memory-section table, absent when the metadata lacks one.
    pub sections: Option<Vec<SectionInput>>,
    /// The relocation table's address strings, absent attributes as `None`.
    pub relocations: Option<Vec<Option<String>>>,
    /// The function entries, absent when the metadata lacks the list.
    pub functions: Option<Vec<FunctionInput>>,
    /// The module's raw memory image.
    pub image: Vec<u8>,
}

/// The mathematical shape of one extracted function record.
pub struct RecordModel {
    pub lib_filename: Seq<char>,
    pub namespace: Seq<char>,
    pub name: Seq<char>,
    pub ghidra_addr: u32,
    pub len: u32,
    pub code: Seq<u32>,
}

/// An extracted record carries exactly the given model.
pub open spec fn rec_matches(a: AsmFunction, m: RecordModel) -> bool {
    &&& a.lib_filename@ == m.lib_filename
    &&& a.namespace@ == m.namespace
    &&& a.name@ == m.name
    &&& a.ghidra_addr == m.ghidra_addr
    &&& a.len == m.len
    &&& a.code@ == m.code
}

/// What one relocation entry contributes: the address, aligned down to the
/// owning instruction word (a relocation may point at a byte inside an
/// instruction; the whole word is what gets masked).
pub open spec fn reloc_step(entry: Option<String>) -> Result<u32, ExtractError> {
    match entry {
        None => Err(ExtractError::MissingField),
        Some(a) => {
            if !valid_hex_u32(a@) {
                Err(ExtractError::MalformedHex)
            } else {
                let v = hex_chars_value(strip_hex_prefix(a@));
                Ok((v - (v % 4)) as u32)
            }
        },
    }
}

/// The module's masked instruction addresses, in table order; or the first
/// error.
pub open spec fn relocs_spec(entries: Seq<Option<String>>) -> Result<Seq<u32>, ExtractError>
    decreases entries.len(),
{
    if entries.len() == 0 {
        Ok(Seq::empty())
    } else {
        match relocs_spec(entries.drop_last()) {
            Err(e) => Err(e),
            Ok(vs) => match reloc_step(entries.last()) {
                Err(e) => Err(e),
                Ok(v) => Ok(vs.push(v)),
            },
        }
    }
}

/// Once a prefix of the relocation table fails, every longer prefix fails the
/// same way.
proof fn lemma_relocs_error_persists(entries: Seq<Option<String>>, i: int, j: int)
    requires
        0 <= i <= j <= entries.len(),
        relocs_spec(entries.take(i)) is Err,
    ensures
        relocs_spec(entries.take(j)) == relocs_spec(entries.take(i)),
    decreases j - i,
{
    if j > i {
        lemma_relocs_error_persists(entries, i, j - 1);
        assert(entries.take(j).drop_last() =~= entries.take(j - 1));
    }
}

/// The 32-bit big-endian word at byte position `pos` of the image.
pub open spec fn word_at(image: Seq<u8>, pos: int) -> u32 {
    (image[pos] * 0x1000000 + image[pos + 1] * 0x10000 + image[pos + 2] * 0x100 + image[pos
        + 3]) as u32
}

/// The function's code: `count` words read big-endian from byte position
/// `pos`, each overwritten with the sentinel 0 when its instruction address
/// stands in the relocation set.
pub open spec fn code_spec(
    image: Seq<u8>,
    pos: int,
    start: u32,
    count: int,
    relocs: Seq<u32>,
) -> Seq<u32> {
    Seq::new(
        count as nat,
        |k: int|
            if relocs.contains((start + 4 * k) as u32) {
                0u32
            } else {
                word_at(image, pos + 4 * k)
            },
    )
}

/// The start addresses of the memory map's segments, in order.
pub open spec fn starts_of(pairs: Seq<(u32, u32)>) -> Seq<u32> {
    Seq::new(pairs.len(), |i: int| pairs[i].0)
}

/// What one function entry contributes: an error; nothing, for a zero-length
/// entry (a compiler-generated thunk, intentionally excluded); or one record.
/// The record's file position is the function's start address translated
/// through its segment; its code is read there and masked.
pub open spec fn func_step(
    f: FunctionInput,
    pairs: Seq<(u32, u32)>,
    relocs: Seq<u32>,
    image: Seq<u8>,
    lib: Seq<char>,
    ns: Seq<char>,
) -> Result<Option<RecordModel>, ExtractError> {
    match f.name {
        None => Err(ExtractError::MissingField),
        Some(name) => {
            if !f.has_range {
                Err(ExtractError::MissingField)
            } else {
                match f.start {
                    None => Err(ExtractError::MissingField),
                    Some(sa) => {
                        if !valid_hex_u32(sa@) {
                            Err(ExtractError::MalformedHex)
                        } else {
                            match f.end {
                                None => Err(ExtractError::MissingField),
                                Some(ea) => {
                                    if !valid_hex_u32(ea@) {
                                        Err(ExtractError::MalformedHex)
                                    } else {
                                        let start = hex_chars_value(strip_hex_prefix(sa@)) as u32;
                                        let end = hex_chars_value(strip_hex_prefix(ea@)) as u32;
                                        if start == end {
                                            Ok(None)
                                        } else if end < start {
                                            Err(ExtractError::MalformedHex)
                                        } else {
                                            let len = end - start + 1;
                                            if len % 4 != 0 || len > u32::MAX {
                                                Err(ExtractError::MalformedHex)
                                            } else {
                                                match seg_idx(starts_of(pairs), start) {
                                                    None => Err(ExtractError::AddressNotMapped),
                                                    Some(si) => {
                                                        let pos = start - pairs[si].0
                                                            + pairs[si].1;
                                                        if pos < 0 || pos + len > image.len() {
                                                            Err(ExtractError::Io)
                                                        } else {
                                                            Ok(
                                                                Some(
                                                                    RecordModel {
                                                                        lib_filename: lib,
                                                                        namespace: ns,
                                                                        name: name@,
                                                                        ghidra_addr: start,
                                                                        len: len as u32,
                                                                        code: code_spec(
                                                                            image,
                                                                            pos,
                                                                            start,
                                                                            len / 4,
                                                                            relocs,
                                                                        ),
                                                                    },
                                                                ),
                                                            )
                                                        }
                                                    },
                                                }
                                            }
                                        }
                                    }
                                },
                            }
                        }
                    },
                }
            }
        },
    }
}

/// The records of the first `n` function entries, in entry order; or the
/// first error.
pub open spec fn funcs_spec(
    fs: Seq<FunctionInput>,
    pairs: Seq<(u32, u32)>,
    relocs: Seq<u32>,
    image: Seq<u8>,
    lib: Seq<char>,
    ns: Seq<char>,
) -> Result<Seq<RecordModel>, ExtractError>
    decreases fs.len(),
{
    if fs.len() == 0 {
        Ok(Seq::empty())
    } else {
        match funcs_spec(fs.drop_last(), pairs, relocs, image, lib, ns) {
            Err(e) => Err(e),
            Ok(rs) => match func_step(fs.last(), pairs, relocs, image, lib, ns) {
                Err(e) => Err(e),
                Ok(None) => Ok(rs),
                Ok(Some(r)) => Ok(rs.push(r)),
            },
        }
    }
}

/// Once a prefix of the function list fails, every longer prefix fails the
/// same way.
proof fn lemma_funcs_error_persists(
    fs: Seq<FunctionInput>,
    pairs: Seq<(u32, u32)>,
    relocs: Seq<u32>,
    image: Seq<u8>,
    lib: Seq<char>,
    ns: Seq<char>,
    i: int,
    j: int,
)
    requires
        0 <= i <= j <= fs.len(),
        funcs_spec(fs.take(i), pairs, relocs, image, lib, ns) is Err,
    ensures
        funcs_spec(fs.take(j), pairs, relocs, image, lib, ns) == funcs_spec(
            fs.take(i),
            pairs,
            relocs,
            image,
            lib,
            ns,
        ),
    decreases j - i,
{
    if j > i {
        lemma_funcs_error_persists(fs, pairs, relocs, image, lib, ns, i, j - 1);
        assert(fs.take(j).drop_last() =~= fs.take(j - 1));
    }
}

/// After a failing entry, the whole list's extraction fails the same way.
proof fn lemma_funcs_fail_at(
    fs: Seq<FunctionInput>,
    pairs: Seq<(u32, u32)>,
    relocs: Seq<u32>,
    image: Seq<u8>,
    lib: Seq<char>,
    ns: Seq<char>,
    i: int,
)
    requires
        0 <= i < fs.len(),
        funcs_spec(fs.take(i + 1), pairs, relocs, image, lib, ns) is Err,
    ensures
        funcs_spec(fs, pairs, relocs, image, lib, ns) == funcs_spec(
            fs.take(i + 1),
            pairs,
            relocs,
            image,
            lib,
            ns,
        ),
{
    lemma_funcs_error_persists(fs, pairs, relocs, image, lib, ns, i + 1, fs.len() as int);
    assert(fs.take(fs.len() as int) =~= fs);
}

/// What extracting the whole module yields: the records of its function
/// entries, in entry order; or the first error, checked in the order the
/// module metadata is read - program name, namespace, memory map,
/// relocation table, function list.
pub open spec fn extract_spec(m: ModuleInput) -> Result<Seq<RecordModel>, ExtractError> {
    match m.program_name {
        None => Err(ExtractError::MissingField),
        Some(lib) => match m.fsrl {
            None => Err(ExtractError::MissingField),
            Some(f) => match namespace_of(f@) {
                None => Err(ExtractError::NamespaceUnparsable),
                Some(ns) => match m.sections {
                    None => Err(ExtractError::MissingField),
                    Some(secs) => match memmap_pairs(secs@) {
                        Err(e) => Err(e),
                        Ok(pairs) => match m.relocations {
                            None => Err(ExtractError::MissingField),
                            Some(rl) => match relocs_spec(rl@) {
                                Err(e) => Err(e),
                                Ok(relocs) => match m.functions {
                                    None => Err(ExtractError::MissingField),
                                    Some(fs) => funcs_spec(fs@, pairs, relocs, m.image@, lib@, ns),
                                },
                            },
                        },
                    },
                },
            },
        },
    }
}

/// The documented constraint on module metadata: the executable sections come
/// with strictly ascending start addresses, as the source tool emits them. No
/// re-sort and no defensive check is performed; the extraction contract is
/// pinned down only under this constraint.
pub open spec fn sections_sorted(m: ModuleInput) -> bool {
    match m.sections {
        None => true,
        Some(secs) => match memmap_pairs(secs@) {
            Err(_) => true,
            Ok(pairs) => strictly_increasing(starts_of(pairs)),
        },
    }
}

/// Collects the module's masked instruction addresses: each relocation entry
/// parsed and aligned down to its instruction word, in table order; the first
/// malformed entry aborts with its error.
fn build_relocations(entries: &Vec<Option<String>>) -> (r: Result<Vec<u32>, ExtractError>)
    ensures
        r is Ok <==> relocs_spec(entries@) is Ok,
        r is Ok ==> r->Ok_0@ == relocs_spec(entries@)->Ok_0,
        r is Err ==> relocs_spec(entries@) == Err::<Seq<u32>, ExtractError>(r->Err_0),
{
    let mut relocs: Vec<u32> = Vec::new();
    let n = entries.len();
    let mut i: usize = 0;
    while i < n
        invariant
            i <= n,
            n == entries@.len(),
            relocs_spec(entries@.take(i as int)) is Ok,
            relocs_spec(entries@.take(i as int))->Ok_0 == relocs@,
        decreases n - i,
    {
        proof {
            assert(entries@.take(i + 1).drop_last() =~= entries@.take(i as int));
            assert(entries@.take(i + 1).last() == entries@[i as int]);
        }
        match &entries[i] {
            None => {
                proof {
                    lemma_relocs_error_persists(entries@, i + 1, n as int);
                    assert(entries@.take(n as int) =~= entries@);
                }
                return Err(ExtractError::MissingField);
            },
            Some(a) => {
                match parse_u32_hex(a.as_str()) {
                    Err(e) => {
                        proof {
                            lemma_relocs_error_persists(entries@, i + 1, n as int);
                            assert(entries@.take(n as int) =~= entries@);
                        }
                        return Err(e);
                    },
                    Ok(addr) => {
                        // align down to the owning instruction word
                        relocs.push(addr - (addr % 4));
                        proof {
                            assert(relocs@ =~= relocs_spec(entries@.take(i + 1))->Ok_0);
                        }
                    },
                }
            },
        }
        i = i + 1;
    }
    proof {
        assert(entries@.take(n as int) =~= entries@);
    }
    Ok(relocs)
}

/// Whether the masked-address set holds `x`.
fn contains_u32(v: &Vec<u32>, x: u32) -> (r: bool)
    ensures
        r == v@.contains(x),
{
    let n = v.len();
    let mut i: usize = 0;
    while i < n
        invariant
            i <= n,
            n == v@.len(),
            forall|k: int| 0 <= k < i ==> v@[k] != x,
        decreases n - i,
    {
        if v[i] == x {
            return true;
        }
        i = i + 1;
    }
    false
}

/// Reads the 32-bit big-endian word at byte position `pos` of the image.
fn read_u32_be(image: &Vec<u8>, pos: usize) -> (r: u32)
    requires
        pos + 4 <= image@.len(),
    ensures
        r == word_at(image@, pos as int),
{
    proof {
        assert(image@.len() == image.len());
    }
    let b0 = image[pos] as u32;
    let b1 = image[pos + 1] as u32;
    let b2 = image[pos + 2] as u32;
    let b3 = image[pos + 3] as u32;
    b0 * 0x1000000 + b1 * 0x10000 + b2 * 0x100 + b3
}

/// Extracts every function record of one module: resolves each function's
/// start address through the memory map, reads its big-endian instruction
/// words from the raw image, and masks the words whose addresses stand in the
/// relocation table. Zero-length entries are skipped; any malformed field
/// aborts the module with the first error.
///
/// The result is pinned down for metadata whose executable sections come in
/// ascending order (see `sections_sorted`); the records' shape invariant
/// holds regardless.
pub fn extract_module(module: &ModuleInput) -> (r: Result<Vec<AsmFunction>, ExtractError>)
    ensures
        sections_sorted(*module) ==> (r is Ok <==> extract_spec(*module) is Ok),
        sections_sorted(*module) && r is Ok ==> r->Ok_0@.len() == extract_spec(*module)->Ok_0.len()
            && (forall|k: int|
            0 <= k < r->Ok_0@.len() ==> rec_matches(
                #[trigger] r->Ok_0@[k],
                extract_spec(*module)->Ok_0[k],
            )),
        sections_sorted(*module) && r is Err ==> extract_spec(*module) == Err::<
            Seq<RecordModel>,
            ExtractError,
        >(r->Err_0),
        r is Ok ==> forall|k: int|
            0 <= k < r->Ok_0@.len() ==> (#[trigger] r->Ok_0@[k]).wf() && r->Ok_0@[k].len > 0,
{
    let ghost sorted = sections_sorted(*module);
    let lib_filename = match &module.program_name {
        None => {
            return Err(ExtractError::MissingField);
        },
        Some(s) => s,
    };
    let fsrl = match &module.fsrl {
        None => {
            return Err(ExtractError::MissingField);
        },
        Some(s) => s,
    };
    let namespace = match derive_namespace(fsrl.as_str()) {
        Err(e) => {
            return Err(e);
        },
        Ok(ns) => ns,
    };
    let sections = match &module.sections {
        None => {
            return Err(ExtractError::MissingField);
        },
        Some(s) => s,
    };
    let memmap = match MemoryMap::parse(sections) {
        Err(e) => {
            return Err(e);
        },
        Ok(m) => m,
    };
    let reloc_entries = match &module.relocations {
        None => {
            return Err(ExtractError::MissingField);
        },
        Some(r) => r,
    };
    let relocs = match build_relocations(reloc_entries) {
        Err(e) => {
            return Err(e);
        },
        Ok(v) => v,
    };
    let functions = match &module.functions {
        None => {
            return Err(ExtractError::MissingField);
        },
        Some(f) => f,
    };
    let ghost pairs = memmap_pairs(sections@)->Ok_0;
    let ghost lib = lib_filename@;
    let ghost ns = namespace@;
    proof {
        assert(memmap.pairs() == pairs);
        assert(memmap.ghidra_addrs@ =~= starts_of(pairs));
    }
    let mut out: Vec<AsmFunction> = Vec::new();
    let n = functions.len();
    let mut i: usize = 0;
    while i < n
        invariant
            i <= n,
            n == functions@.len(),
            sorted == sections_sorted(*module),
            module.program_name == Some(*lib_filename),
            module.fsrl == Some(*fsrl),
            module.sections == Some(*sections),
            module.relocations == Some(*reloc_entries),
            module.functions == Some(*functions),
            lib == lib_filename@,
            ns == namespace@,
            namespace_of(fsrl@) == Some(ns),
            memmap_pairs(sections@) == Ok::<Seq<(u32, u32)>, ExtractError>(pairs),
            relocs_spec(reloc_entries@) == Ok::<Seq<u32>, ExtractError>(relocs@),
            memmap.wf(),
            memmap.pairs() == pairs,
            memmap.ghidra_addrs@ == starts_of(pairs),
            sorted ==> funcs_spec(
                functions@.take(i as int),
                pairs,
                relocs@,
                module.image@,
                lib,
                ns,
            ) is Ok,
            sorted ==> {
                let models = funcs_spec(
                    functions@.take(i as int),
                    pairs,
                    relocs@,
                    module.image@,
                    lib,
                    ns,
                )->Ok_0;
                out@.len() == models.len() && (forall|k: int|
                    0 <= k < out@.len() ==> rec_matches(#[trigger] out@[k], models[k]))
            },
            forall|k: int| 0 <= k < out@.len() ==> (#[trigger] out@[k]).wf() && out@[k].len > 0,
        decreases n - i,
    {
        let ghost fseq = functions@;
        proof {
            assert(fseq.take(i + 1).drop_last() =~= fseq.take(i as int));
            assert(fseq.take(i + 1).last() == fseq[i as int]);
        }
        let f = &functions[i];
        let ghost step = func_step(fseq[i as int], pairs, relocs@, module.image@, lib, ns);
        let name = match &f.name {
            None => {
                proof {
                    if sorted {
                        lemma_funcs_fail_at(fseq, pairs, relocs@, module.image@, lib, ns, i as int);
                    }
                }
                return Err(ExtractError::MissingField);
            },
            Some(nm) => nm,
        };
        if !f.has_range {
            proof {
                if sorted {
                    lemma_funcs_fail_at(fseq, pairs, relocs@, module.image@, lib, ns, i as int);
                }
            }
            return Err(ExtractError::MissingField);
        }
        let start = match &f.start {
            None => {
                proof {
                    if sorted {
                        lemma_funcs_fail_at(fseq, pairs, relocs@, module.image@, lib, ns, i as int);
                    }
                }
                return Err(ExtractError::MissingField);
            },
            Some(sa) => match parse_u32_hex(sa.as_str()) {
                Err(e) => {
                    proof {
                        if sorted {
                            lemma_funcs_fail_at(fseq, pairs, relocs@, module.image@, lib, ns, i as int);
                        }
                    }
                    return Err(e);
                },
                Ok(v) => v,
            },
        };
        let end = match &f.end {
            None => {
                proof {
                    if sorted {
                        lemma_funcs_fail_at(fseq, pairs, relocs@, module.image@, lib, ns, i as int);
                    }
                }
                return Err(ExtractError::MissingField);
            },
            Some(ea) => match parse_u32_hex(ea.as_str()) {
                Err(e) => {
                    proof {
                        if sorted {
                            lemma_funcs_fail_at(fseq, pairs, relocs@, module.image@, lib, ns, i as int);
                        }
                    }
                    return Err(e);
                },
                Ok(v) => v,
            },
        };
        if start == end {
            // zero-length entry: a thunk, intentionally excluded
            i = i + 1;
            continue ;
        }
        if end < start {
            proof {
                if sorted {
                    lemma_funcs_fail_at(fseq, pairs, relocs@, module.image@, lib, ns, i as int);
                }
            }
            return Err(ExtractError::MalformedHex);
        }
        let len64: u64 = (end as u64) - (start as u64) + 1;
        if len64 % 4 != 0 || len64 > (u32::MAX as u64) {
            proof {
                if sorted {
                    lemma_funcs_fail_at(fseq, pairs, relocs@, module.image@, lib, ns, i as int);
                }
            }
            return Err(ExtractError::MalformedHex);
        }
        let seg = match memmap.find_segment_idx(start) {
            Err(_) => {
                proof {
                    if sorted {
                        lemma_funcs_fail_at(fseq, pairs, relocs@, module.image@, lib, ns, i as int);
                    }
                }
                return Err(ExtractError::AddressNotMapped);
            },
            Ok(si) => si,
        };
        let base = memmap.ghidra_addrs[seg];
        let offset = memmap.file_offsets[seg];
        let rel_off = match start.checked_sub(base) {
            None => {
                proof {
                    if sorted {
                        // with an ascending table the found segment starts at
                        // or below the address, so this cannot happen
                        crate::memmap::lemma_seg_idx_some(starts_of(pairs), start);
                        assert(false);
                    }
                }
                return Err(ExtractError::Io);
            },
            Some(v) => v,
        };
        proof {
            if sorted {
                crate::memmap::lemma_seg_idx_some(starts_of(pairs), start);
                assert(seg_idx(starts_of(pairs), start) == Some(seg as int));
                assert(pairs[seg as int].0 == base);
                assert(pairs[seg as int].1 == offset);
            }
        }
        let pos64: u64 = (rel_off as u64) + (offset as u64);
        if pos64 > u64::MAX - len64 || pos64 + len64 > (module.image.len() as u64) {
            proof {
                if sorted {
                    lemma_funcs_fail_at(fseq, pairs, relocs@, module.image@, lib, ns, i as int);
                }
            }
            return Err(ExtractError::Io);
        }
        let pos = pos64 as usize;
        let count = (len64 / 4) as usize;
        let ghost code_model = code_spec(module.image@, pos as int, start, count as int, relocs@);
        let mut code: Vec<u32> = Vec::new();
        let mut k: usize = 0;
        while k < count
            invariant
                k <= count,
                count == len64 / 4,
                len64 == end - start + 1,
                start < end,
                len64 % 4 == 0,
                pos == pos64,
                pos + len64 <= module.image@.len(),
                relocs_spec(reloc_entries@) == Ok::<Seq<u32>, ExtractError>(relocs@),
                code_model == code_spec(module.image@, pos as int, start, count as int, relocs@),
                code@.len() == k,
                forall|t: int| 0 <= t < k ==> code@[t] == code_model[t],
            decreases count - k,
        {
            proof {
                assert(module.image@.len() == module.image.len());
                assert(4 * (count as int) == len64);
                assert(4 * (k as int) + 4 <= len64);
            }
            let word = read_u32_be(&module.image, pos + 4 * k);
            let addr = start + (k as u32) * 4;
            if contains_u32(&relocs, addr) {
                code.push(0);
            } else {
                code.push(word);
            }
            k = k + 1;
        }
        proof {
            assert(code@ =~= code_model);
        }
        let record = AsmFunction {
            lib_filename: lib_filename.clone(),
            namespace: namespace.clone(),
            name: name.clone(),
            ghidra_addr: start,
            len: len64 as u32,
            code,
        };
        out.push(record);
        proof {
            if sorted {
                let models = funcs_spec(fseq.take(i + 1), pairs, relocs@, module.image@, lib, ns);
                assert(step is Ok && step->Ok_0 is Some);
                assert(rec_matches(out@.last(), step->Ok_0->0));
            }
        }
        i = i + 1;
    }
    proof {
        assert(functions@.take(n as int) =~= functions@);
    }
    Ok(out)
}

} // verus!
