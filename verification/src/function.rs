use vstd::prelude::*;

verus! {

/// One disassembled function: its source binary, its logical library name,
/// its symbol name, and its machine code as 32-bit big-endian words, one per
/// instruction slot, in address order. A word of exactly 0 is the sentinel
/// for "masked by relocation - contents not comparable"; a legitimate all-zero
/// instruction cannot occur on this architecture, so the sentinel is
/// unambiguous.
pub struct AsmFunction {
    /// Name of the binary file the function came from.
    pub lib_filename: String,
    /// Logical library/module name, derived from the export metadata path.
    pub namespace: String,
    /// Symbol name as reported by the disassembler.
    pub name: String,
    /// 32-bit virtual address of the first instruction.
    pub ghidra_addr: u32,
    /// Length in bytes; always `4 * code.len()`.
    pub len: u32,
    /// Instruction words, masked words overwritten with 0.
    pub code: Vec<u32>,
}

impl AsmFunction {
    /// The record invariant: the byte length covers exactly the instruction
    /// words, and the function's byte span stays inside the 32-bit address
    /// space.
    pub open spec fn wf(&self) -> bool {
        &&& self.len == 4 * self.code@.len()
        &&& self.ghidra_addr + self.len <= 0x1_0000_0000
    }
}

/// Lexicographic order on character sequences by Unicode scalar value, the
/// order Rust gives to strings. The empty sequence comes first; a proper
/// prefix comes before its extensions.
pub open spec fn lex_le(a: Seq<char>, b: Seq<char>) -> bool
    decreases a.len(),
{
    if a.len() == 0 {
        true
    } else if b.len() == 0 {
        false
    } else if (a[0] as u32) < (b[0] as u32) {
        true
    } else if (a[0] as u32) > (b[0] as u32) {
        false
    } else {
        lex_le(a.skip(1), b.skip(1))
    }
}

/// Any two character sequences are ordered.
pub proof fn lemma_lex_le_total(a: Seq<char>, b: Seq<char>)
    ensures
        lex_le(a, b) || lex_le(b, a),
    decreases a.len(),
{
    if a.len() > 0 && b.len() > 0 && (a[0] as u32) == (b[0] as u32) {
        lemma_lex_le_total(a.skip(1), b.skip(1));
    }
}

/// The order is transitive.
pub proof fn lemma_lex_le_trans(a: Seq<char>, b: Seq<char>, c: Seq<char>)
    requires
        lex_le(a, b),
        lex_le(b, c),
    ensures
        lex_le(a, c),
    decreases a.len(),
{
    if a.len() > 0 && b.len() > 0 && c.len() > 0 && (a[0] as u32) == (b[0] as u32) && (b[0] as u32)
        == (c[0] as u32) {
        lemma_lex_le_trans(a.skip(1), b.skip(1), c.skip(1));
    }
}

/// Two sequences each no later than the other are the same sequence.
pub proof fn lemma_lex_le_antisymmetric(a: Seq<char>, b: Seq<char>)
    requires
        lex_le(a, b),
        lex_le(b, a),
    ensures
        a == b,
    decreases a.len(),
{
    if a.len() > 0 && b.len() > 0 && (a[0] as u32) == (b[0] as u32) {
        lemma_lex_le_antisymmetric(a.skip(1), b.skip(1));
        assert(a[0] == b[0]) by {
            vstd::utf8::char_u32_cast(a[0], a[0] as u32);
            vstd::utf8::char_u32_cast(b[0], b[0] as u32);
        }
        assert(a.len() == b.len());
        assert forall|k: int| 0 <= k < a.len() implies a[k] == b[k] by {
            if k >= 1 {
                assert(a.skip(1)[k - 1] == b.skip(1)[k - 1]);
            }
        }
        assert(a =~= b);
    } else {
        assert(a.len() == 0 && b.len() == 0);
        assert(a =~= b);
    }
}

/// Dropping an equal prefix from both sides does not change the order.
proof fn lemma_lex_le_skip(a: Seq<char>, b: Seq<char>, i: int)
    requires
        0 <= i <= a.len(),
        i <= b.len(),
        forall|k: int| 0 <= k < i ==> a[k] == b[k],
    ensures
        lex_le(a, b) == lex_le(a.skip(i), b.skip(i)),
    decreases i,
{
    if i > 0 {
        assert(a.len() > 0 && b.len() > 0 && a[0] == b[0]);
        assert(lex_le(a, b) == lex_le(a.skip(1), b.skip(1)));
        lemma_lex_le_skip(a.skip(1), b.skip(1), i - 1);
        assert(a.skip(1).skip(i - 1) =~= a.skip(i));
        assert(b.skip(1).skip(i - 1) =~= b.skip(i));
    } else {
        assert(a.skip(0) =~= a);
        assert(b.skip(0) =~= b);
    }
}

/// Whether `a` comes no later than `b` in lexicographic order.
pub fn str_lex_le(a: &str, b: &str) -> (r: bool)
    ensures
        r == lex_le(a@, b@),
{
    let la = a.unicode_len();
    let lb = b.unicode_len();
    let mut i: usize = 0;
    while i < la && i < lb
        invariant
            i <= la,
            i <= lb,
            la == a@.len(),
            lb == b@.len(),
            forall|k: int| 0 <= k < i ==> a@[k] == b@[k],
        decreases la - i,
    {
        let ca = a.get_char(i) as u32;
        let cb = b.get_char(i) as u32;
        proof {
            lemma_lex_le_skip(a@, b@, i as int);
            assert(a@.skip(i as int)[0] == a@[i as int]);
            assert(b@.skip(i as int)[0] == b@[i as int]);
        }
        if ca < cb {
            return true;
        }
        if ca > cb {
            return false;
        }
        i = i + 1;
    }
    proof {
        lemma_lex_le_skip(a@, b@, i as int);
        if i == la {
            assert(a@.skip(i as int).len() == 0);
        } else {
            assert(b@.skip(i as int).len() == 0);
            assert(a@.skip(i as int).len() > 0);
        }
    }
    i == la
}

/// The deterministic output order of function records: by namespace, then by
/// name, each lexicographically. Used only for reproducible output, never for
/// matching logic.
pub open spec fn key_le(a: AsmFunction, b: AsmFunction) -> bool {
    if a.namespace@ == b.namespace@ {
        lex_le(a.name@, b.name@)
    } else {
        lex_le(a.namespace@, b.namespace@)
    }
}

/// Whether `a`'s (namespace, name) key comes no later than `b`'s.
pub fn record_key_le(a: &AsmFunction, b: &AsmFunction) -> (r: bool)
    ensures
        r == key_le(*a, *b),
{
    if a.namespace == b.namespace {
        str_lex_le(a.name.as_str(), b.name.as_str())
    } else {
        str_lex_le(a.namespace.as_str(), b.namespace.as_str())
    }
}

/// The character for one hexadecimal digit value, lower case.
pub open spec fn hex_digit_char(d: int) -> char {
    if d == 0 {
        '0'
    } else if d == 1 {
        '1'
    } else if d == 2 {
        '2'
    } else if d == 3 {
        '3'
    } else if d == 4 {
        '4'
    } else if d == 5 {
        '5'
    } else if d == 6 {
        '6'
    } else if d == 7 {
        '7'
    } else if d == 8 {
        '8'
    } else if d == 9 {
        '9'
    } else if d == 10 {
        'a'
    } else if d == 11 {
        'b'
    } else if d == 12 {
        'c'
    } else if d == 13 {
        'd'
    } else if d == 14 {
        'e'
    } else {
        'f'
    }
}

/// A 32-bit value written as 8 lower-case hexadecimal characters, zero padded,
/// most significant digit first.
pub open spec fn hex8_chars(x: u32) -> Seq<char> {
    seq![
        hex_digit_char((x as int) / 0x10000000 % 16),
        hex_digit_char((x as int) / 0x1000000 % 16),
        hex_digit_char((x as int) / 0x100000 % 16),
        hex_digit_char((x as int) / 0x10000 % 16),
        hex_digit_char((x as int) / 0x1000 % 16),
        hex_digit_char((x as int) / 0x100 % 16),
        hex_digit_char((x as int) / 0x10 % 16),
        hex_digit_char((x as int) % 16),
    ]
}

/// A 32-bit instruction word written as four space-separated byte pairs,
/// `"aa bb cc dd"`.
pub open spec fn hex_spaces_chars(x: u32) -> Seq<char> {
    let h = hex8_chars(x);
    seq![h[0], h[1], ' ', h[2], h[3], ' ', h[4], h[5], ' ', h[6], h[7]]
}

/// The qualified name `namespace::name`.
pub open spec fn full_name_chars(namespace: Seq<char>, name: Seq<char>) -> Seq<char> {
    namespace + seq![':', ':'] + name
}

/// Appends the character for one hexadecimal digit value.
fn push_hex_digit(s: &mut String, d: u32)
    requires
        d < 16,
    ensures
        final(s)@ == old(s)@.push(hex_digit_char(d as int)),
{
    proof {
        reveal_strlit("0");
        reveal_strlit("1");
        reveal_strlit("2");
        reveal_strlit("3");
        reveal_strlit("4");
        reveal_strlit("5");
        reveal_strlit("6");
        reveal_strlit("7");
        reveal_strlit("8");
        reveal_strlit("9");
        reveal_strlit("a");
        reveal_strlit("b");
        reveal_strlit("c");
        reveal_strlit("d");
        reveal_strlit("e");
        reveal_strlit("f");
    }
    if d == 0 {
        s.append("0");
    } else if d == 1 {
        s.append("1");
    } else if d == 2 {
        s.append("2");
    } else if d == 3 {
        s.append("3");
    } else if d == 4 {
        s.append("4");
    } else if d == 5 {
        s.append("5");
    } else if d == 6 {
        s.append("6");
    } else if d == 7 {
        s.append("7");
    } else if d == 8 {
        s.append("8");
    } else if d == 9 {
        s.append("9");
    } else if d == 10 {
        s.append("a");
    } else if d == 11 {
        s.append("b");
    } else if d == 12 {
        s.append("c");
    } else if d == 13 {
        s.append("d");
    } else if d == 14 {
        s.append("e");
    } else {
        s.append("f");
    }
    proof {
        assert(final(s)@ =~= old(s)@.push(hex_digit_char(d as int)));
    }
}

/// Writes a 32-bit value as 8 lower-case hexadecimal characters, zero padded.
pub fn hex8(x: u32) -> (r: String)
    ensures
        r@ == hex8_chars(x),
{
    let mut s = String::new();
    push_hex_digit(&mut s, x / 0x10000000 % 16);
    push_hex_digit(&mut s, x / 0x1000000 % 16);
    push_hex_digit(&mut s, x / 0x100000 % 16);
    push_hex_digit(&mut s, x / 0x10000 % 16);
    push_hex_digit(&mut s, x / 0x1000 % 16);
    push_hex_digit(&mut s, x / 0x100 % 16);
    push_hex_digit(&mut s, x / 0x10 % 16);
    push_hex_digit(&mut s, x % 16);
    proof {
        assert(s@ =~= hex8_chars(x));
    }
    s
}

impl AsmFunction {
    /// One instruction word written as four space-separated byte pairs,
    /// `"aa bb cc dd"`.
    pub fn hexstring_spaces(inst: u32) -> (r: String)
        ensures
            r@ == hex_spaces_chars(inst),
    {
        proof {
            reveal_strlit(" ");
        }
        let mut s = String::new();
        push_hex_digit(&mut s, inst / 0x10000000 % 16);
        push_hex_digit(&mut s, inst / 0x1000000 % 16);
        s.append(" ");
        push_hex_digit(&mut s, inst / 0x100000 % 16);
        push_hex_digit(&mut s, inst / 0x10000 % 16);
        s.append(" ");
        push_hex_digit(&mut s, inst / 0x1000 % 16);
        push_hex_digit(&mut s, inst / 0x100 % 16);
        s.append(" ");
        push_hex_digit(&mut s, inst / 0x10 % 16);
        push_hex_digit(&mut s, inst % 16);
        proof {
            assert(s@ =~= hex_spaces_chars(inst));
        }
        s
    }

    /// The qualified name `namespace::name`.
    pub fn full_name(&self) -> (r: String)
        ensures
            r@ == full_name_chars(self.namespace@, self.name@),
    {
        proof {
            reveal_strlit("::");
        }
        let mut s = self.namespace.clone();
        s.append("::");
        s.append(self.name.as_str());
        proof {
            assert(s@ =~= full_name_chars(self.namespace@, self.name@));
        }
        s
    }
}

} // verus!
