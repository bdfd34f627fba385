//! Sample alphabets: the fixed sets behind the escape directives, and
//! character classes built from `[...]` bodies in first-insertion order.

use vstd::prelude::*;

verus! {

pub open spec fn digits_alpha() -> Seq<char> {
    "0123456789"@
}

pub open spec fn word_alpha() -> Seq<char> {
    "ABCDEFGHIJKLMNOPQRSTUVWXYZabcdefghijklmnopqrstuvwxyz0123456789_"@
}

pub open spec fn space_alpha() -> Seq<char> {
    " \t\n\r"@
}

pub open spec fn nondigit_alpha() -> Seq<char> {
    "ABCDEFGHIJKLMNOPQRSTUVWXYZabcdefghijklmnopqrstuvwxyz!@#$%^&*()"@
}

pub open spec fn nonword_alpha() -> Seq<char> {
    "!@#$%^&*()+=-[]{}|;:,.<>?/`~"@
}

pub open spec fn nonspace_alpha() -> Seq<char> {
    "ABCDEFGHIJKLMNOPQRSTUVWXYZabcdefghijklmnopqrstuvwxyz0123456789!@#$%^&*()"@
}

/// The random alphabet of an escape directive, or `None` where the escaped
/// character stands for a fixed character.
pub open spec fn escape_expansion(c: char) -> Option<Seq<char>> {
    if c == 'd' {
        Some(digits_alpha())
    } else if c == 'w' {
        Some(word_alpha())
    } else if c == 's' {
        Some(space_alpha())
    } else if c == 'D' {
        Some(nondigit_alpha())
    } else if c == 'W' {
        Some(nonword_alpha())
    } else if c == 'S' {
        Some(nonspace_alpha())
    } else {
        None
    }
}

/// The fixed character of a non-random escape: tab, newline, or the escaped
/// character itself.
pub open spec fn escape_literal(c: char) -> char {
    if c == 't' {
        '\t'
    } else if c == 'n' {
        '\n'
    } else {
        c
    }
}

/// The exec twin of [`escape_expansion`].
pub exec fn escape_expansion_exec(c: char) -> (r: Option<&'static str>)
    ensures
        match r {
            Some(a) => escape_expansion(c) == Some(a@) && a@.len() >= 1,
            None => escape_expansion(c) is None,
        },
{
    if c == 'd' {
        let a = "0123456789";
        proof {
            reveal_strlit("0123456789");
        }
        Some(a)
    } else if c == 'w' {
        let a = "ABCDEFGHIJKLMNOPQRSTUVWXYZabcdefghijklmnopqrstuvwxyz0123456789_";
        proof {
            reveal_strlit("ABCDEFGHIJKLMNOPQRSTUVWXYZabcdefghijklmnopqrstuvwxyz0123456789_");
        }
        Some(a)
    } else if c == 's' {
        let a = " \t\n\r";
        proof {
            reveal_strlit(" \t\n\r");
        }
        Some(a)
    } else if c == 'D' {
        let a = "ABCDEFGHIJKLMNOPQRSTUVWXYZabcdefghijklmnopqrstuvwxyz!@#$%^&*()";
        proof {
            reveal_strlit("ABCDEFGHIJKLMNOPQRSTUVWXYZabcdefghijklmnopqrstuvwxyz!@#$%^&*()");
        }
        Some(a)
    } else if c == 'W' {
        let a = "!@#$%^&*()+=-[]{}|;:,.<>?/`~";
        proof {
            reveal_strlit("!@#$%^&*()+=-[]{}|;:,.<>?/`~");
        }
        Some(a)
    } else if c == 'S' {
        let a = "ABCDEFGHIJKLMNOPQRSTUVWXYZabcdefghijklmnopqrstuvwxyz0123456789!@#$%^&*()";
        proof {
            reveal_strlit(
                "ABCDEFGHIJKLMNOPQRSTUVWXYZabcdefghijklmnopqrstuvwxyz0123456789!@#$%^&*()",
            );
        }
        Some(a)
    } else {
        None
    }
}

/// The exec twin of [`escape_literal`].
pub exec fn escape_literal_exec(c: char) -> (r: char)
    ensures
        r == escape_literal(c),
{
    if c == 't' {
        '\t'
    } else if c == 'n' {
        '\n'
    } else {
        c
    }
}

/// Add a character to a class unless it is already there: first-insertion
/// order is the class's sampling order.
pub open spec fn class_add(s: Seq<char>, c: char) -> Seq<char> {
    if s.contains(c) {
        s
    } else {
        s.push(c)
    }
}

/// A Unicode scalar value: what a `char` may hold.
pub open spec fn valid_scalar(v: nat) -> bool {
    v < 0xD800 || (0xE000 <= v && v <= 0x10FFFF)
}

/// Add every scalar value of `lo..=hi` to the class, in code order.
pub open spec fn class_add_range(s: Seq<char>, lo: nat, hi: nat) -> Seq<char>
    decreases hi + 1 - lo,
{
    if lo > hi {
        s
    } else {
        let s2 = if valid_scalar(lo) {
            class_add(s, lo as char)
        } else {
            s
        };
        class_add_range(s2, lo + 1, hi)
    }
}

/// The printable range complement of a class, code order 32 through 126,
/// starting at code `v`.
pub open spec fn comp_from(cls: Seq<char>, v: nat) -> Seq<char>
    decreases 127 - v,
{
    if v >= 127 {
        Seq::empty()
    } else {
        let rest = comp_from(cls, v + 1);
        if !cls.contains(v as char) {
            seq![v as char] + rest
        } else {
            rest
        }
    }
}

/// The effective alphabet of a negated class.
pub open spec fn complement(cls: Seq<char>) -> Seq<char> {
    comp_from(cls, 32)
}

/// A complement holds exactly the printable characters outside the class.
pub proof fn lemma_comp_from_member(cls: Seq<char>, v: nat, x: char)
    requires
        v >= 32,
    ensures
        comp_from(cls, v).contains(x) <==> (v <= (x as nat) < 127 && !cls.contains(x)),
    decreases 127 - v,
{
    if v < 127 {
        lemma_comp_from_member(cls, v + 1, x);
        let rest = comp_from(cls, v + 1);
        if !cls.contains(v as char) {
            assert(comp_from(cls, v) == seq![v as char] + rest);
            assert((seq![v as char] + rest)[0] == v as char);
            if x == v as char {
                assert(comp_from(cls, v).contains(x));
            }
            if rest.contains(x) {
                let i = choose|i: int| 0 <= i < rest.len() && rest[i] == x;
                assert((seq![v as char] + rest)[i + 1] == x);
            }
            if comp_from(cls, v).contains(x) && x != v as char {
                let i = choose|i: int|
                    0 <= i < comp_from(cls, v).len() && comp_from(cls, v)[i] == x;
                assert(rest[i - 1] == x);
            }
        }
    }
}

/// Linear membership scan.
pub exec fn contains_char(v: &Vec<char>, c: char) -> (r: bool)
    ensures
        r == v@.contains(c),
{
    let mut i: usize = 0;
    while i < v.len()
        invariant
            0 <= i <= v@.len(),
            forall|j: int| 0 <= j < i ==> v@[j] != c,
        decreases v@.len() - i,
    {
        if v[i] == c {
            return true;
        }
        i = i + 1;
    }
    false
}

/// The exec twin of [`class_add`].
pub exec fn class_add_exec(v: &mut Vec<char>, c: char)
    ensures
        final(v)@ == class_add(old(v)@, c),
{
    if !contains_char(v, c) {
        v.push(c);
    }
}

/// Relies on `char::from_u32`: it returns the character with the given code
/// exactly for Unicode scalar values, and nothing otherwise.
#[verifier::external_body]
fn char_from_u32(v: u32) -> (r: Option<char>)
    ensures
        r == (if valid_scalar(v as nat) {
            Some(v as char)
        } else {
            None::<char>
        }),
{
    char::from_u32(v)
}

/// The exec twin of [`class_add_range`].
pub exec fn class_add_range_exec(v: &mut Vec<char>, lo: char, hi: char)
    ensures
        final(v)@ == class_add_range(old(v)@, lo as nat, hi as nat),
{
    let lo32 = lo as u32;
    let hi32 = hi as u32;
    let mut c32: u32 = lo32;
    while c32 <= hi32
        invariant
            lo32 == lo as u32,
            hi32 == hi as u32,
            hi32 <= 0x10FFFF,
            lo32 <= c32,
            c32 <= hi32 + 1 || c32 == lo32,
            class_add_range(v@, c32 as nat, hi32 as nat) == class_add_range(
                old(v)@,
                lo32 as nat,
                hi32 as nat,
            ),
        decreases hi32 + 1 - c32,
    {
        match char_from_u32(c32) {
            Some(c) => {
                class_add_exec(v, c);
            },
            None => {
            },
        }
        c32 = c32 + 1;
    }
    proof {
        assert(class_add_range(v@, c32 as nat, hi32 as nat) == v@);
    }
}

/// The exec twin of [`complement`]: walk the printable range upward, keeping
/// what the class does not hold.
pub exec fn complement_exec(cls: &Vec<char>) -> (r: Vec<char>)
    ensures
        r@ == complement(cls@),
{
    let mut out: Vec<char> = Vec::new();
    let mut c32: u32 = 32;
    while c32 < 127
        invariant
            32 <= c32 <= 127,
            out@ + comp_from(cls@, c32 as nat) == complement(cls@),
        decreases 127 - c32,
    {
        match char_from_u32(c32) {
            Some(c) => {
                proof {
                    assert(comp_from(cls@, c32 as nat) == (if !cls@.contains(c) {
                        seq![c] + comp_from(cls@, (c32 + 1) as nat)
                    } else {
                        comp_from(cls@, (c32 + 1) as nat)
                    }));
                }
                if !contains_char(cls, c) {
                    out.push(c);
                    proof {
                        assert(out@ + comp_from(cls@, (c32 + 1) as nat) =~= complement(cls@));
                    }
                }
            },
            None => {
                proof {
                    assert(false);
                }
            },
        }
        c32 = c32 + 1;
    }
    proof {
        assert(comp_from(cls@, c32 as nat) == Seq::<char>::empty());
        assert(out@ =~= complement(cls@));
    }
    out
}

} // verus!
