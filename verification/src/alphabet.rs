use vstd::prelude::*;

verus! {

/// Number of symbols in the cipher's alphabet: the printable characters of
/// Basic Latin and Latin-1 Supplement that the cipher accepts (190 of them),
/// plus line feed and carriage return.
pub const SIZE: usize = 192;

/// Position of a character in the alphabet, or -1 when the character is not
/// part of the alphabet. The alphabet holds, in codepoint order, the
/// characters 0x20..=0x7E and 0xA1..=0xFF, followed by '\n' and '\r'.
pub open spec fn sym_index(c: char) -> int {
    let u = c as u32;
    if 0x20 <= u && u <= 0x7E {
        u - 0x20
    } else if 0xA1 <= u && u <= 0xFF {
        95 + (u - 0xA1)
    } else if u == 0x0A {
        190
    } else if u == 0x0D {
        191
    } else {
        -1
    }
}

/// A character is in the cipher's domain exactly when the alphabet holds it.
pub open spec fn in_domain(c: char) -> bool {
    sym_index(c) >= 0
}

/// Every character of the sequence is in the cipher's domain.
pub open spec fn all_in_domain(s: Seq<char>) -> bool {
    forall|i: int| 0 <= i < s.len() ==> in_domain(#[trigger] s[i])
}

/// The character standing at a given alphabet position.
pub open spec fn sym_at(i: int) -> char {
    if 0 <= i && i < 95 {
        ((0x20 + i) as u32) as char
    } else if 95 <= i && i < 190 {
        ((0xA1 + i - 95) as u32) as char
    } else if i == 190 {
        '\n'
    } else {
        '\r'
    }
}

/// An alphabet position determines its character: `sym_at` inverts `sym_index`.
pub proof fn lemma_sym_at_index(i: int)
    requires
        0 <= i < 192,
    ensures
        sym_index(sym_at(i)) == i,
        in_domain(sym_at(i)),
{
}

/// Two domain characters at the same alphabet position are the same character.
pub proof fn lemma_sym_index_injective(c1: char, c2: char)
    requires
        in_domain(c1),
        in_domain(c2),
        sym_index(c1) == sym_index(c2),
    ensures
        c1 == c2,
{
    vstd::utf8::char_u32_cast(c1, c1 as u32);
    vstd::utf8::char_u32_cast(c2, c2 as u32);
}

/// A domain character is the one standing at its own position.
pub proof fn lemma_sym_at_inverse(c: char)
    requires
        in_domain(c),
    ensures
        sym_at(sym_index(c)) == c,
{
    lemma_sym_at_index(sym_index(c));
    lemma_sym_index_injective(c, sym_at(sym_index(c)));
}

/// The alphabet: an ordered sequence of 192 pairwise distinct symbols, the
/// single source of truth for which characters the cipher accepts.
pub struct DictWrap(pub Vec<char>);

impl DictWrap {
    /// The alphabet is well formed when it holds exactly the 192 domain
    /// symbols, each at its own position.
    pub open spec fn wf(&self) -> bool {
        &&& self.0@.len() == 192
        &&& forall|i: int| 0 <= i < 192 ==> #[trigger] sym_index(self.0@[i]) == i
    }

    /// Builds the alphabet: codepoints 0x20..=0x7E, then 0xA1..=0xFF, then
    /// line feed and carriage return.
    pub fn new() -> (r: DictWrap)
        ensures
            r.wf(),
    {
        let mut v: Vec<char> = Vec::new();
        let mut cp: u16 = 0x20;
        while cp <= 0x7E
            invariant
                0x20 <= cp <= 0x7F,
                v@.len() == cp - 0x20,
                forall|i: int| 0 <= i < v@.len() ==> #[trigger] sym_index(v@[i]) == i,
            decreases 0x7F - cp,
        {
            let c: char = (cp as u8) as char;
            assert(c as u32 == cp);
            v.push(c);
            cp += 1;
        }
        let mut cp: u16 = 0xA1;
        while cp <= 0xFF
            invariant
                0xA1 <= cp <= 0x100,
                v@.len() == 95 + (cp - 0xA1),
                forall|i: int| 0 <= i < v@.len() ==> #[trigger] sym_index(v@[i]) == i,
            decreases 0x100 - cp,
        {
            let c: char = (cp as u8) as char;
            assert(c as u32 == cp);
            v.push(c);
            cp += 1;
        }
        v.push('\n');
        assert('\n' as u32 == 0x0A);
        v.push('\r');
        assert('\r' as u32 == 0x0D);
        DictWrap(v)
    }

    /// The alphabet's symbols as one string, in alphabet order.
    pub fn get_string(&self) -> (s: String)
        ensures
            s@ == self.0@,
    {
        let mut s = String::new();
        let mut i: usize = 0;
        while i < self.0.len()
            invariant
                i <= self.0@.len(),
                s@ == self.0@.subrange(0, i as int),
            decreases self.0@.len() - i,
        {
            s.push(self.0[i]);
            proof {
                assert(self.0@.subrange(0, i as int).push(self.0@[i as int]) =~= self.0@.subrange(
                    0,
                    i + 1 as int,
                ));
            }
            i += 1;
        }
        proof {
            assert(self.0@.subrange(0, i as int) =~= self.0@);
        }
        s
    }
}

} // verus!
