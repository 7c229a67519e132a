use vstd::prelude::*;

verus! {

/// An interned identifier. The interner that maps names to strings lives
/// outside this library; here a name is only its index.
#[derive(PartialEq, Eq, PartialOrd, Ord, Clone, Copy, Debug, Structural)]
pub struct Name(pub usize);

impl Name {
    pub fn as_usize(&self) -> (r: usize)
        ensures
            r == self.0,
    {
        let Name(result) = *self;
        result
    }
}

/// The width of an integer type; `AnyWidth` adapts to context.
#[derive(PartialEq, Eq, PartialOrd, Ord, Clone, Copy, Debug, Structural)]
pub enum Width {
    AnyWidth,
    Width32,
    Width16,
    Width8,
}

#[derive(PartialEq, Eq, Clone, Copy, Debug, Structural)]
pub enum IntKind {
    GenericInt,
    SignedInt(Width),
    UnsignedInt(Width),
}

/// Number of bits that a value of this width occupies; `AnyWidth` is 32.
pub open spec fn width_bits(w: Width) -> nat {
    match w {
        Width::Width8 => 8,
        Width::Width16 => 16,
        _ => 32,
    }
}

pub open spec fn is_signed_kind(k: IntKind) -> bool {
    !(k is UnsignedInt)
}

/// The integer that the 64-bit pattern `n` stands for under the kind `k`:
/// the low bits of the kind's width, read as two's complement when signed.
/// A generic integer is read as a signed 32-bit value.
pub open spec fn reinterpret(k: IntKind, n: u64) -> int {
    let bits: nat = match k {
        IntKind::GenericInt => 32,
        IntKind::SignedInt(w) => width_bits(w),
        IntKind::UnsignedInt(w) => width_bits(w),
    };
    let m = pow2(bits) as int;
    let low = (n as int) % m;
    if is_signed_kind(k) && low >= m / 2 {
        low - m
    } else {
        low
    }
}

pub open spec fn pow2(e: nat) -> nat
    decreases e,
{
    if e == 0 {
        1
    } else {
        2 * pow2((e - 1) as nat)
    }
}

pub open spec fn digit_char(d: nat) -> char {
    if d == 0 { '0' }
    else if d == 1 { '1' }
    else if d == 2 { '2' }
    else if d == 3 { '3' }
    else if d == 4 { '4' }
    else if d == 5 { '5' }
    else if d == 6 { '6' }
    else if d == 7 { '7' }
    else if d == 8 { '8' }
    else { '9' }
}

/// The decimal digits of `n`, most significant first, without leading zeros.
pub open spec fn decimal(n: nat) -> Seq<char>
    decreases n,
{
    if n < 10 {
        seq![digit_char(n)]
    } else {
        decimal(n / 10).push(digit_char(n % 10))
    }
}

/// The decimal text of an integer, with a leading '-' when it is negative.
pub open spec fn int_text(i: int) -> Seq<char> {
    if i < 0 {
        seq!['-'] + decimal((-i) as nat)
    } else {
        decimal(i as nat)
    }
}

/// Whether `n` is one of `names`.
pub fn name_in(names: &Vec<Name>, n: Name) -> (r: bool)
    ensures
        r == names@.contains(n),
{
    let mut i: usize = 0;
    while i < names.len()
        invariant
            i <= names@.len(),
            forall|k: int| 0 <= k < i ==> names@[k] != n,
        decreases names@.len() - i,
    {
        if names[i] == n {
            return true;
        }
        i = i + 1;
    }
    false
}

/// Relies on String::push: appends one character at the end.
#[verifier::external_body]
fn push_char(s: &mut String, c: char)
    ensures
        final(s)@ == old(s)@.push(c),
{
    s.push(c);
}

fn digit_to_char(d: u64) -> (c: char)
    requires
        d < 10,
    ensures
        c == digit_char(d as nat),
{
    if d == 0 { '0' }
    else if d == 1 { '1' }
    else if d == 2 { '2' }
    else if d == 3 { '3' }
    else if d == 4 { '4' }
    else if d == 5 { '5' }
    else if d == 6 { '6' }
    else if d == 7 { '7' }
    else if d == 8 { '8' }
    else { '9' }
}

/// Appends the decimal digits of `n` to `s`.
fn push_decimal(s: &mut String, n: u64)
    ensures
        final(s)@ == old(s)@ + decimal(n as nat),
    decreases n,
{
    if n < 10 {
        push_char(s, digit_to_char(n));
        assert(decimal(n as nat) == seq![digit_char(n as nat)]);
    } else {
        push_decimal(s, n / 10);
        push_char(s, digit_to_char(n % 10));
        assert(decimal(n as nat) == decimal((n / 10) as nat).push(digit_char((n % 10) as nat)));
    }
}

/// Decimal text of a signed value of magnitude below 2^63.
fn signed_text(v: i64) -> (r: String)
    requires
        v > i64::MIN,
    ensures
        r@ == int_text(v as int),
{
    let mut s = String::new();
    if v < 0 {
        push_char(&mut s, '-');
        push_decimal(&mut s, (-v) as u64);
    } else {
        push_decimal(&mut s, v as u64);
    }
    assert(s@ =~= int_text(v as int));
    s
}

/// The width as written after an integer type's letter: empty for `AnyWidth`.
pub open spec fn width_text(w: Width) -> Seq<char> {
    match w {
        Width::AnyWidth => Seq::empty(),
        Width::Width32 => seq!['3', '2'],
        Width::Width16 => seq!['1', '6'],
        Width::Width8 => seq!['8'],
    }
}

/// The name of an integer kind: empty for a generic integer, else `i` or `u`
/// followed by the width.
pub open spec fn kind_text(k: IntKind) -> Seq<char> {
    match k {
        IntKind::GenericInt => Seq::empty(),
        IntKind::SignedInt(w) => seq!['i'] + width_text(w),
        IntKind::UnsignedInt(w) => seq!['u'] + width_text(w),
    }
}

impl Width {
    fn push_to(&self, s: &mut String)
        ensures
            final(s)@ == old(s)@ + width_text(*self),
    {
        match self {
            Width::AnyWidth => {},
            Width::Width32 => {
                push_char(s, '3');
                push_char(s, '2');
            },
            Width::Width16 => {
                push_char(s, '1');
                push_char(s, '6');
            },
            Width::Width8 => {
                push_char(s, '8');
            },
        }
        assert(final(s)@ =~= old(s)@ + width_text(*self));
    }

    /// The width as text.
    pub fn to_text(&self) -> (r: String)
        ensures
            r@ == width_text(*self),
    {
        let mut s = String::new();
        self.push_to(&mut s);
        assert(s@ =~= width_text(*self));
        s
    }
}

impl IntKind {
    /// The name of the kind as text.
    pub fn to_text(&self) -> (r: String)
        ensures
            r@ == kind_text(*self),
    {
        let mut s = String::new();
        match self {
            IntKind::GenericInt => {},
            IntKind::SignedInt(w) => {
                push_char(&mut s, 'i');
                w.push_to(&mut s);
            },
            IntKind::UnsignedInt(w) => {
                push_char(&mut s, 'u');
                w.push_to(&mut s);
            },
        }
        assert(s@ =~= kind_text(*self));
        s
    }

    pub fn is_signed(&self) -> (r: bool)
        ensures
            r == is_signed_kind(*self),
    {
        match *self {
            IntKind::GenericInt | IntKind::SignedInt(..) => true,
            IntKind::UnsignedInt(..) => false,
        }
    }

    pub fn is_generic(&self) -> (r: bool)
        ensures
            r == (*self is GenericInt),
    {
        match *self {
            IntKind::GenericInt => true,
            _ => false,
        }
    }

    /// The decimal text of the 64-bit pattern `n` read as a value of this kind.
    /// The integer that the 64-bit pattern `n` stands for under this kind.
    pub fn value(&self, n: u64) -> (r: i64)
        ensures
            r as int == reinterpret(*self, n),
            -0x8000_0000 <= r < 0x1_0000_0000,
    {
        let bits: u64 = match *self {
            IntKind::GenericInt => 32,
            IntKind::SignedInt(w) | IntKind::UnsignedInt(w) => match w {
                Width::Width8 => 8,
                Width::Width16 => 16,
                _ => 32,
            },
        };
        let m: u64 = if bits == 8 { 256 } else if bits == 16 { 65536 } else { 4294967296 };
        proof {
            reveal_with_fuel(pow2, 33);
            assert(pow2(8) == 256);
            assert(pow2(16) == 65536);
            assert(pow2(32) == 4294967296);
        }
        let low: u64 = n % m;
        if self.is_signed() && low >= m / 2 {
            low as i64 - m as i64
        } else {
            low as i64
        }
    }

    pub fn num_to_string(&self, n: u64) -> (r: String)
        ensures
            r@ == int_text(reinterpret(*self, n)),
    {
        signed_text(self.value(n))
    }
}

} // verus!
