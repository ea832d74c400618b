use vstd::prelude::*;

verus! {

/// The decimal digit character for `d` in `0..10`.
pub open spec fn digit_char(d: nat) -> char {
    ((d + '0' as nat) as u32) as char
}

/// The decimal notation of `n`, without leading zeros (`"0"` for zero).
pub open spec fn decimal(n: nat) -> Seq<char>
    decreases n,
{
    if n < 10 {
        seq![digit_char(n)]
    } else {
        decimal(n / 10).push(digit_char(n % 10))
    }
}

/// `s` with zeros in front, up to `width` characters.
pub open spec fn zero_padded(s: Seq<char>, width: nat) -> Seq<char> {
    if s.len() < width {
        Seq::new((width - s.len()) as nat, |i: int| '0') + s
    } else {
        s
    }
}

/// Appends one character to a string.
#[verifier::external_body]
fn push_char(s: &mut String, c: char)
    ensures
        final(s)@ == old(s)@.push(c),
{
    s.push(c)
}

proof fn lemma_decimal_len(n: nat)
    ensures
        decimal(n).len() >= 1,
    decreases n,
{
    if n >= 10 {
        lemma_decimal_len(n / 10);
    }
}

/// The digits of `n`, most significant first.
fn digits(n: u64) -> (r: Vec<char>)
    ensures
        r@ == decimal(n as nat),
    decreases n,
{
    if n < 10 {
        let c = ((n as u8) + 48u8) as char;
        proof {
            assert(c == digit_char(n as nat));
        }
        vec![c]
    } else {
        let mut r = digits(n / 10);
        let d = ((n % 10) as u8 + 48u8) as char;
        proof {
            assert(d == digit_char((n % 10) as nat));
        }
        r.push(d);
        r
    }
}

/// Appends `n` in decimal, padded with zeros to at least `width` characters.
pub fn push_decimal(s: &mut String, n: u64, width: usize)
    ensures
        final(s)@ == old(s)@ + zero_padded(decimal(n as nat), width as nat),
{
    let d = digits(n);
    let ghost start = s@;
    let mut pad: usize = 0;
    let missing: usize = if d.len() < width { width - d.len() } else { 0 };
    while pad < missing
        invariant
            pad <= missing,
            s@ == start + Seq::new(pad as nat, |i: int| '0'),
        decreases missing - pad,
    {
        push_char(s, '0');
        pad = pad + 1;
        proof {
            assert(Seq::new(pad as nat, |i: int| '0') =~= Seq::new((pad - 1) as nat, |i: int| '0').push('0'));
        }
    }
    let ghost padded = s@;
    let mut i: usize = 0;
    while i < d.len()
        invariant
            i <= d.len(),
            s@ == padded + d@.subrange(0, i as int),
        decreases d.len() - i,
    {
        push_char(s, d[i]);
        proof {
            assert(d@.subrange(0, i + 1) =~= d@.subrange(0, i as int).push(d@[i as int]));
        }
        i = i + 1;
    }
    proof {
        assert(d@.subrange(0, d.len() as int) =~= d@);
        let z = zero_padded(decimal(n as nat), width as nat);
        if d.len() < width {
            assert(z =~= Seq::new(missing as nat, |i: int| '0') + d@);
        } else {
            assert(Seq::new(0nat, |i: int| '0') =~= Seq::<char>::empty());
            assert(z =~= d@);
        }
        assert(s@ =~= old(s)@ + z);
    }
}

/// A copy of a literal as an owned string.
pub fn owned(s: &str) -> (r: String)
    ensures
        r@ == s@,
{
    String::from_str(s)
}

} // verus!
