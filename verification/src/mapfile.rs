use vstd::prelude::*;

use crate::function::full_name_chars;
use crate::function::hex8;
use crate::function::hex8_chars;
use crate::function::AsmFunction;

verus! {

/// One symbol-map line for a confident pairing: the REL function's address,
/// the SDK function's byte length, the address again, a literal 0, and the
/// qualified SDK name - addresses and length as lowercase zero-padded 8-digit
/// hexadecimal.
pub open spec fn mapfile_line(sdk: AsmFunction, rel: AsmFunction) -> Seq<char> {
    hex8_chars(rel.ghidra_addr) + " "@ + hex8_chars(sdk.len) + " "@ + hex8_chars(rel.ghidra_addr)
        + " 0 "@ + full_name_chars(sdk.namespace@, sdk.name@) + "\n"@
}

/// The lines of the first `n` pairings, in pairing order.
pub open spec fn mapfile_lines(
    sdk: Seq<AsmFunction>,
    rel: Seq<AsmFunction>,
    pairings: Seq<(usize, usize)>,
    n: int,
) -> Seq<char>
    decreases n,
{
    if n <= 0 {
        Seq::empty()
    } else {
        mapfile_lines(sdk, rel, pairings, n - 1) + mapfile_line(
            sdk[pairings[n - 1].0 as int],
            rel[pairings[n - 1].1 as int],
        )
    }
}

/// The whole symbol-map file: a `.text` section with one line per confident
/// pairing, and an empty `.data` placeholder section for the downstream
/// consumer.
pub open spec fn mapfile_text(
    sdk: Seq<AsmFunction>,
    rel: Seq<AsmFunction>,
    pairings: Seq<(usize, usize)>,
) -> Seq<char> {
    ".text section layout\n"@ + mapfile_lines(sdk, rel, pairings, pairings.len() as int)
        + "\n.data section layout\n"@
}

/// Serializes the confident pairings to the symbol-map text format, in the
/// order given.
pub fn export_mapfile(
    sdk_funcs: &Vec<AsmFunction>,
    rel_funcs: &Vec<AsmFunction>,
    pairings: &Vec<(usize, usize)>,
) -> (r: String)
    requires
        forall|k: int|
            0 <= k < pairings@.len() ==> (#[trigger] pairings@[k]).0 < sdk_funcs@.len()
                && pairings@[k].1 < rel_funcs@.len(),
    ensures
        r@ == mapfile_text(sdk_funcs@, rel_funcs@, pairings@),
{
    let mut out = String::new();
    out.append(".text section layout\n");
    let n = pairings.len();
    let mut i: usize = 0;
    while i < n
        invariant
            i <= n,
            n == pairings@.len(),
            forall|k: int|
                0 <= k < pairings@.len() ==> (#[trigger] pairings@[k]).0 < sdk_funcs@.len()
                    && pairings@[k].1 < rel_funcs@.len(),
            out@ == ".text section layout\n"@ + mapfile_lines(
                sdk_funcs@,
                rel_funcs@,
                pairings@,
                i as int,
            ),
        decreases n - i,
    {
        let pair = pairings[i];
        let sdk = &sdk_funcs[pair.0];
        let rel = &rel_funcs[pair.1];
        let addr_hex = hex8(rel.ghidra_addr);
        out.append(addr_hex.as_str());
        out.append(" ");
        let len_hex = hex8(sdk.len);
        out.append(len_hex.as_str());
        out.append(" ");
        out.append(addr_hex.as_str());
        out.append(" 0 ");
        let name = sdk.full_name();
        out.append(name.as_str());
        out.append("\n");
        proof {
            assert(out@ =~= ".text section layout\n"@ + mapfile_lines(
                sdk_funcs@,
                rel_funcs@,
                pairings@,
                i + 1,
            ));
        }
        i = i + 1;
    }
    out.append("\n.data section layout\n");
    proof {
        assert(out@ =~= mapfile_text(sdk_funcs@, rel_funcs@, pairings@));
    }
    out
}

} // verus!
