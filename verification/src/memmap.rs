use vstd::prelude::*;

use crate::error::ExtractError;
use crate::util::hex_chars_value;
use crate::util::parse_u32_hex;
use crate::util::strip_hex_prefix;
use crate::util::valid_hex_u32;

verus! {

/// Raw description of one memory section as the export metadata gives it:
/// attribute strings, absent attributes as `None`, and whether the section
/// has byte contents in the file at all (a memory-only section, for example
/// uninitialized data, has none and is skipped).
pub struct SectionInput {
    /// The section's permission letters; `x` marks an executable section.
    pub permissions: Option<String>,
    /// The section's start address, in hexadecimal.
    pub start_addr: Option<String>,
    /// Whether the section carries byte contents in the module file.
    pub has_contents: bool,
    /// Where the contents start in the module file, in hexadecimal.
    pub file_offset: Option<String>,
}

/// Per-segment address translation for one module: segment start addresses as
/// the disassembler reports them, and the file offset of each segment's bytes,
/// index for index.
///
/// The segment starts are taken in the order the metadata emits them, which
/// the source tool emits ascending; no re-sort is performed, so unsorted
/// metadata is an unchecked precondition of address resolution (the contracts
/// below promise resolution results only for a strictly increasing table).
pub struct MemoryMap {
    pub ghidra_addrs: Vec<u32>,
    pub file_offsets: Vec<u32>,
}

/// Whether a character sequence holds the character `c`.
pub open spec fn contains_char(s: Seq<char>, c: char) -> bool {
    exists|i: int| 0 <= i < s.len() && s[i] == c
}

/// Whether a string holds the character `c`.
pub fn str_contains_char(s: &str, c: char) -> (r: bool)
    ensures
        r == contains_char(s@, c),
{
    let n = s.unicode_len();
    let mut i: usize = 0;
    while i < n
        invariant
            i <= n,
            n == s@.len(),
            forall|k: int| 0 <= k < i ==> s@[k] != c,
        decreases n - i,
    {
        if s.get_char(i) == c {
            return true;
        }
        i = i + 1;
    }
    false
}

/// What one section contributes to the memory map: an error, nothing (skipped
/// as non-executable or memory-only), or one (start address, file offset)
/// pair.
pub open spec fn section_step(s: SectionInput) -> Result<Option<(u32, u32)>, ExtractError> {
    match s.permissions {
        None => Err(ExtractError::MissingField),
        Some(perms) => {
            if !contains_char(perms@, 'x') {
                Ok(None)
            } else {
                match s.start_addr {
                    None => Err(ExtractError::MissingField),
                    Some(sa) => {
                        if !valid_hex_u32(sa@) {
                            Err(ExtractError::MalformedHex)
                        } else if !s.has_contents {
                            Ok(None)
                        } else {
                            match s.file_offset {
                                None => Err(ExtractError::MissingField),
                                Some(fo) => {
                                    if !valid_hex_u32(fo@) {
                                        Err(ExtractError::MalformedHex)
                                    } else {
                                        Ok(
                                            Some(
                                                (
                                                    hex_chars_value(strip_hex_prefix(sa@)) as u32,
                                                    hex_chars_value(strip_hex_prefix(fo@)) as u32,
                                                ),
                                            ),
                                        )
                                    }
                                },
                            }
                        }
                    },
                }
            }
        },
    }
}

/// The (start address, file offset) pairs of the executable sections with
/// contents, in metadata order; or the first error, in metadata order.
pub open spec fn memmap_pairs(sections: Seq<SectionInput>) -> Result<
    Seq<(u32, u32)>,
    ExtractError,
>
    decreases sections.len(),
{
    if sections.len() == 0 {
        Ok(Seq::empty())
    } else {
        match memmap_pairs(sections.drop_last()) {
            Err(e) => Err(e),
            Ok(ps) => match section_step(sections.last()) {
                Err(e) => Err(e),
                Ok(None) => Ok(ps),
                Ok(Some(p)) => Ok(ps.push(p)),
            },
        }
    }
}

/// Once a prefix of the section list fails, every longer prefix fails the
/// same way.
proof fn lemma_memmap_error_persists(sections: Seq<SectionInput>, i: int, j: int)
    requires
        0 <= i <= j <= sections.len(),
        memmap_pairs(sections.take(i)) is Err,
    ensures
        memmap_pairs(sections.take(j)) == memmap_pairs(sections.take(i)),
    decreases j - i,
{
    if j > i {
        lemma_memmap_error_persists(sections, i, j - 1);
        assert(sections.take(j).drop_last() =~= sections.take(j - 1));
    }
}

impl MemoryMap {
    /// The map's pairs as one sequence, index for index.
    pub open spec fn pairs(&self) -> Seq<(u32, u32)> {
        Seq::new(self.ghidra_addrs@.len(), |i: int| (self.ghidra_addrs@[i], self.file_offsets@[i]))
    }

    /// The two columns cover the same segments.
    pub open spec fn wf(&self) -> bool {
        self.ghidra_addrs@.len() == self.file_offsets@.len()
    }

    /// Builds the memory map from the module's section metadata: executable
    /// sections with byte contents contribute one segment each, in metadata
    /// order; the first malformed section aborts with its error.
    pub fn parse(sections: &Vec<SectionInput>) -> (r: Result<MemoryMap, ExtractError>)
        ensures
            r is Ok <==> memmap_pairs(sections@) is Ok,
            r is Ok ==> r->Ok_0.wf() && r->Ok_0.pairs() == memmap_pairs(sections@)->Ok_0,
            r is Err ==> memmap_pairs(sections@) == Err::<Seq<(u32, u32)>, ExtractError>(
                r->Err_0,
            ),
    {
        let mut ghidra_addrs: Vec<u32> = Vec::new();
        let mut file_offsets: Vec<u32> = Vec::new();
        let n = sections.len();
        let mut i: usize = 0;
        while i < n
            invariant
                i <= n,
                n == sections@.len(),
                ghidra_addrs@.len() == file_offsets@.len(),
                memmap_pairs(sections@.take(i as int)) is Ok,
                memmap_pairs(sections@.take(i as int))->Ok_0 == Seq::new(
                    ghidra_addrs@.len(),
                    |k: int| (ghidra_addrs@[k], file_offsets@[k]),
                ),
            decreases n - i,
        {
            let ghost pre = memmap_pairs(sections@.take(i as int))->Ok_0;
            proof {
                assert(sections@.take(i + 1).drop_last() =~= sections@.take(i as int));
                assert(sections@.take(i + 1).last() == sections@[i as int]);
            }
            let section = &sections[i];
            match &section.permissions {
                None => {
                    proof {
                        lemma_memmap_error_persists(sections@, i + 1, n as int);
                        assert(sections@.take(n as int) =~= sections@);
                    }
                    return Err(ExtractError::MissingField);
                },
                Some(perms) => {
                    if str_contains_char(perms.as_str(), 'x') {
                        match &section.start_addr {
                            None => {
                                proof {
                                    lemma_memmap_error_persists(sections@, i + 1, n as int);
                                    assert(sections@.take(n as int) =~= sections@);
                                }
                                return Err(ExtractError::MissingField);
                            },
                            Some(sa) => {
                                let start = match parse_u32_hex(sa.as_str()) {
                                    Ok(v) => v,
                                    Err(e) => {
                                        proof {
                                            lemma_memmap_error_persists(sections@, i + 1, n as int);
                                            assert(sections@.take(n as int) =~= sections@);
                                        }
                                        return Err(e);
                                    },
                                };
                                if section.has_contents {
                                    match &section.file_offset {
                                        None => {
                                            proof {
                                                lemma_memmap_error_persists(
                                                    sections@,
                                                    i + 1,
                                                    n as int,
                                                );
                                                assert(sections@.take(n as int) =~= sections@);
                                            }
                                            return Err(ExtractError::MissingField);
                                        },
                                        Some(fo) => {
                                            let offset = match parse_u32_hex(fo.as_str()) {
                                                Ok(v) => v,
                                                Err(e) => {
                                                    proof {
                                                        lemma_memmap_error_persists(
                                                            sections@,
                                                            i + 1,
                                                            n as int,
                                                        );
                                                        assert(sections@.take(n as int)
                                                            =~= sections@);
                                                    }
                                                    return Err(e);
                                                },
                                            };
                                            ghidra_addrs.push(start);
                                            file_offsets.push(offset);
                                            proof {
                                                assert(memmap_pairs(sections@.take(i + 1))->Ok_0
                                                    =~= Seq::new(
                                                    ghidra_addrs@.len(),
                                                    |k: int|
                                                        (ghidra_addrs@[k], file_offsets@[k]),
                                                ));
                                            }
                                        },
                                    }
                                }
                            },
                        }
                    }
                },
            }
            i = i + 1;
        }
        proof {
            assert(sections@.take(n as int) =~= sections@);
        }
        let m = MemoryMap { ghidra_addrs, file_offsets };
        proof {
            assert(m.pairs() =~= memmap_pairs(sections@)->Ok_0);
        }
        Ok(m)
    }
}

/// A strictly ascending segment table, the shape the source tool emits.
pub open spec fn strictly_increasing(s: Seq<u32>) -> bool {
    forall|i: int, j: int| 0 <= i < j < s.len() ==> s[i] < s[j]
}

/// The greatest index whose start address is at or below `addr`, or `None`
/// when every start lies above `addr` (or the table is empty). With a strictly
/// increasing table this is the segment that contains `addr`.
pub open spec fn seg_idx(starts: Seq<u32>, addr: u32) -> Option<int>
    decreases starts.len(),
{
    if starts.len() == 0 {
        None
    } else if starts.last() <= addr {
        Some(starts.len() - 1)
    } else {
        seg_idx(starts.drop_last(), addr)
    }
}

/// A found segment index is in range and its start is at or below the
/// address, whatever order the table is in.
pub proof fn lemma_seg_idx_some(starts: Seq<u32>, addr: u32)
    ensures
        match seg_idx(starts, addr) {
            Some(i) => 0 <= i < starts.len() && starts[i] <= addr,
            None => true,
        },
    decreases starts.len(),
{
    if starts.len() > 0 && !(starts.last() <= addr) {
        lemma_seg_idx_some(starts.drop_last(), addr);
    }
}

/// If position `p` splits the table into starts at or below `addr` and starts
/// above it, then the greatest index at or below `addr` is `p - 1`.
proof fn lemma_seg_idx_split(starts: Seq<u32>, addr: u32, p: int)
    requires
        0 <= p <= starts.len(),
        forall|k: int| 0 <= k < p ==> starts[k] <= addr,
        forall|k: int| p <= k < starts.len() ==> starts[k] > addr,
    ensures
        seg_idx(starts, addr) == if p == 0 {
            Option::<int>::None
        } else {
            Some(p - 1)
        },
    decreases starts.len(),
{
    if starts.len() > 0 {
        if starts.last() <= addr {
            assert(p == starts.len());
        } else {
            lemma_seg_idx_split(starts.drop_last(), addr, p);
        }
    }
}

impl MemoryMap {
    /// Binary search for the segment holding `addr`: the greatest segment
    /// start at or below `addr`. Fails with `AddressNotMapped` when `addr`
    /// lies below every segment. The result is pinned down for the strictly
    /// increasing tables the source tool emits; on an unsorted table (an
    /// unchecked precondition, see the type's documentation) only the index
    /// bound is promised.
    pub fn find_segment_idx(&self, ghidra_addr: u32) -> (r: Result<usize, ExtractError>)
        ensures
            r is Ok ==> r->Ok_0 < self.ghidra_addrs@.len(),
            r is Err ==> r->Err_0 == ExtractError::AddressNotMapped,
            strictly_increasing(self.ghidra_addrs@) ==> match seg_idx(
                self.ghidra_addrs@,
                ghidra_addr,
            ) {
                Some(i) => r is Ok && r->Ok_0 == i,
                None => r is Err,
            },
    {
        let starts = &self.ghidra_addrs;
        let n = starts.len();
        let ghost sorted = strictly_increasing(starts@);
        let mut lo: usize = 0;
        let mut hi: usize = n;
        while lo < hi
            invariant
                lo <= hi <= n,
                n == starts@.len(),
                sorted == strictly_increasing(starts@),
                sorted ==> forall|k: int| 0 <= k < lo ==> starts@[k] <= ghidra_addr,
                sorted ==> forall|k: int| hi <= k < n ==> starts@[k] > ghidra_addr,
            decreases hi - lo,
        {
            let mid = lo + (hi - lo) / 2;
            if starts[mid] <= ghidra_addr {
                lo = mid + 1;
            } else {
                hi = mid;
            }
        }
        proof {
            if sorted {
                lemma_seg_idx_split(starts@, ghidra_addr, lo as int);
            }
        }
        if lo == 0 {
            Err(ExtractError::AddressNotMapped)
        } else {
            Ok(lo - 1)
        }
    }
}

} // verus!
