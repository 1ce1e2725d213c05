use vstd::prelude::*;

verus! {

/// The location of something in an address space.
///
/// The meaning of an address depends on the application embedding this
/// library: a machine address, a file offset, or the index of an
/// instruction in a bytecode array.
#[derive(Clone, Copy, Debug, PartialEq, Eq, Structural, Hash, PartialOrd, Ord)]
pub struct Address {
    /// The scalar value of this address.
    pub address: u64,
}

/// The base in which an address is written.
#[derive(Clone, Copy, Debug, PartialEq, Eq, Structural)]
pub enum Radix {
    /// Base 2, prefix `0b`.
    Binary,
    /// Base 8, prefix `0o`.
    Octal,
    /// Base 16 with lower-case digits, prefix `0x`.
    LowerHex,
    /// Base 16 with upper-case digits, prefix `0x`.
    UpperHex,
}

/// How to write an address: the base, whether to put the base's prefix in
/// front, the least number of characters, and whether the padding up to
/// that width is zeros after the prefix (rather than spaces before it).
#[derive(Clone, Copy, Debug, PartialEq, Eq, Structural)]
pub struct RadixFormat {
    /// The base.
    pub radix: Radix,
    /// Whether to write the prefix of the base.
    pub alternate: bool,
    /// The least number of characters written.
    pub width: usize,
    /// Whether to pad with zeros after the prefix instead of spaces.
    pub zero_pad: bool,
}

impl Radix {
    /// The base as a number.
    pub open spec fn base(self) -> nat {
        match self {
            Radix::Binary => 2,
            Radix::Octal => 8,
            _ => 16,
        }
    }

    /// The digits of the base, least first.
    pub open spec fn digits(self) -> Seq<char> {
        match self {
            Radix::UpperHex => seq![
                '0', '1', '2', '3', '4', '5', '6', '7', '8', '9', 'A', 'B', 'C', 'D', 'E', 'F',
            ],
            _ => seq![
                '0', '1', '2', '3', '4', '5', '6', '7', '8', '9', 'a', 'b', 'c', 'd', 'e', 'f',
            ],
        }
    }

    /// The prefix that marks the base.
    pub open spec fn prefix(self) -> Seq<char> {
        match self {
            Radix::Binary => seq!['0', 'b'],
            Radix::Octal => seq!['0', 'o'],
            _ => seq!['0', 'x'],
        }
    }
}

/// The digits of `n` in base `r`, most significant first, with no leading
/// zero (zero itself is one digit).
pub open spec fn radix_digits(n: nat, r: Radix) -> Seq<char>
    decreases n,
{
    if n < r.base() {
        seq![r.digits()[n as int]]
    } else {
        radix_digits(n / r.base(), r) + seq![r.digits()[(n % r.base()) as int]]
    }
}

/// `k` copies of `c`.
pub open spec fn repeat(c: char, k: nat) -> Seq<char> {
    Seq::new(k, |i: int| c)
}

/// How `n` is written in the format `f`.
pub open spec fn formatted(n: nat, f: RadixFormat) -> Seq<char> {
    let prefix = if f.alternate {
        f.radix.prefix()
    } else {
        Seq::empty()
    };
    let digits = radix_digits(n, f.radix);
    let len = prefix.len() + digits.len();
    let pad: nat = if f.width > len {
        (f.width - len) as nat
    } else {
        0
    };
    if f.zero_pad {
        prefix + repeat('0', pad) + digits
    } else {
        repeat(' ', pad) + prefix + digits
    }
}

/// Relies on `String`'s `FromIterator<char>`: the characters in order.
#[verifier::external_body]
pub(crate) fn string_from_chars(chars: &Vec<char>) -> (r: String)
    ensures
        r@ == chars@,
{
    chars.iter().collect()
}

impl Radix {
    /// The base as a number.
    fn base_value(self) -> (r: u64)
        ensures
            r == self.base(),
    {
        match self {
            Radix::Binary => 2,
            Radix::Octal => 8,
            _ => 16,
        }
    }

    /// The digit of value `d`.
    fn digit(self, d: u64) -> (c: char)
        requires
            d < self.base(),
        ensures
            c == self.digits()[d as int],
    {
        let table = match self {
            Radix::UpperHex => vec![
                '0', '1', '2', '3', '4', '5', '6', '7', '8', '9', 'A', 'B', 'C', 'D', 'E', 'F',
            ],
            _ => vec![
                '0', '1', '2', '3', '4', '5', '6', '7', '8', '9', 'a', 'b', 'c', 'd', 'e', 'f',
            ],
        };
        assert(table@ == self.digits());
        table[d as usize]
    }
}

impl Address {
    /// Construct an `Address`.
    pub fn new(address: u64) -> (r: Self)
        ensures
            r.address == address,
    {
        Address { address }
    }

    /// Write this address in the format `f`, as `{:b}`, `{:o}`, `{:x}` and
    /// `{:X}` write an integer, with the `#`, width and `0` flags.
    pub fn format(&self, f: RadixFormat) -> (r: String)
        ensures
            r@ == formatted(self.address as nat, f),
    {
        let base = f.radix.base_value();
        let mut digits: Vec<char> = Vec::new();
        let mut rest = self.address;
        loop
            invariant_except_break
                base == f.radix.base(),
                radix_digits(self.address as nat, f.radix) == radix_digits(rest as nat, f.radix)
                    + digits@,
            ensures
                radix_digits(self.address as nat, f.radix) == digits@,
            decreases rest,
        {
            let d = f.radix.digit(rest % base);
            digits.insert(0, d);
            if rest < base {
                assert(radix_digits(self.address as nat, f.radix) =~= digits@);
                break ;
            }
            assert(radix_digits(rest as nat, f.radix) == radix_digits((rest / base) as nat, f.radix)
                + seq![d]);
            rest = rest / base;
            assert(radix_digits(self.address as nat, f.radix) =~= radix_digits(rest as nat, f.radix)
                + digits@);
        }
        let mut prefix: Vec<char> = Vec::new();
        if f.alternate {
            prefix.push('0');
            prefix.push(
                match f.radix {
                    Radix::Binary => 'b',
                    Radix::Octal => 'o',
                    _ => 'x',
                },
            );
        }
        assert(prefix@ == if f.alternate {
            f.radix.prefix()
        } else {
            Seq::<char>::empty()
        });
        let pad: usize = if f.width > prefix.len() && f.width - prefix.len() > digits.len() {
            f.width - prefix.len() - digits.len()
        } else {
            0
        };
        let fill = if f.zero_pad {
            '0'
        } else {
            ' '
        };
        let mut padding: Vec<char> = Vec::new();
        let mut i: usize = 0;
        while i < pad
            invariant
                i <= pad,
                padding@ == repeat(fill, i as nat),
            decreases pad - i,
        {
            padding.push(fill);
            i = i + 1;
            assert(padding@ =~= repeat(fill, i as nat));
        }
        let mut out: Vec<char> = Vec::new();
        if f.zero_pad {
            out.append(&mut prefix);
            out.append(&mut padding);
        } else {
            out.append(&mut padding);
            out.append(&mut prefix);
        }
        out.append(&mut digits);
        proof {
            let p = if f.alternate {
                f.radix.prefix()
            } else {
                Seq::<char>::empty()
            };
            assert(out@ =~= formatted(self.address as nat, f));
        }
        string_from_chars(&out)
    }
}

} // verus!
