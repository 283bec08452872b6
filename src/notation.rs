//! The text of dice notation: how a token splits on `d`, which pieces read
//! as unsigned 32-bit integers, and how integers are written in decimal.
use vstd::prelude::*;

verus! {

/// The delimiter between the count and the sides of a token.
pub const DELIMITER: char = 'd';

pub open spec fn is_digit(c: char) -> bool {
    '0' <= c && c <= '9'
}

pub open spec fn digit_value(c: char) -> nat {
    (c as int - '0' as int) as nat
}

/// The value of a string of decimal digits, most significant first.
pub open spec fn digits_value(ds: Seq<char>) -> nat
    decreases ds.len(),
{
    if ds.len() == 0 {
        0
    } else {
        digits_value(ds.drop_last()) * 10 + digit_value(ds.last())
    }
}

pub open spec fn all_digits(ds: Seq<char>) -> bool {
    &&& ds.len() > 0
    &&& forall|i: int| 0 <= i < ds.len() ==> is_digit(#[trigger] ds[i])
}

/// A piece without the one leading `+` that an unsigned integer may carry.
pub open spec fn unsigned_digits(p: Seq<char>) -> Seq<char> {
    if p.len() > 0 && p[0] == '+' {
        p.drop_first()
    } else {
        p
    }
}

/// How a piece reads as a `u32`: an optional `+`, then one or more decimal
/// digits whose value fits in 32 bits. Anything else reads as nothing.
pub open spec fn parse_u32(p: Seq<char>) -> Option<u32> {
    let ds = unsigned_digits(p);
    if all_digits(ds) && digits_value(ds) <= u32::MAX {
        Some(digits_value(ds) as u32)
    } else {
        None
    }
}

/// The pieces of `s` between delimiters, in order; there is always one more
/// piece than there are delimiters, so an empty token has one empty piece.
pub open spec fn pieces(s: Seq<char>) -> Seq<Seq<char>>
    decreases s.len(),
{
    if s.len() == 0 {
        seq![Seq::empty()]
    } else {
        let p = pieces(s.drop_last());
        if s.last() == DELIMITER {
            p.push(Seq::empty())
        } else {
            p.update(p.len() - 1, p.last().push(s.last()))
        }
    }
}

/// The integers that the pieces read as, in order; pieces that read as
/// nothing are left out.
pub open spec fn numbers(ps: Seq<Seq<char>>) -> Seq<u32>
    decreases ps.len(),
{
    if ps.len() == 0 {
        Seq::empty()
    } else {
        let rest = numbers(ps.drop_last());
        match parse_u32(ps.last()) {
            Some(n) => rest.push(n),
            None => rest,
        }
    }
}

/// What a token means as `(count, sides)`: two integers are a count and a
/// number of sides, one integer is the sides of a single die, and any other
/// number of integers means nothing.
pub open spec fn parse_spec(s: Seq<char>) -> Option<(u32, u32)> {
    let ns = numbers(pieces(s));
    if ns.len() == 2 {
        Some((ns[0], ns[1]))
    } else if ns.len() == 1 {
        Some((1u32, ns[0]))
    } else {
        None
    }
}

pub open spec fn digit_char(d: nat) -> char {
    if d == 0 {
        '0'
    } else if d == 1 {
        '1'
    } else if d == 2 {
        '2'
    } else if d == 3 {
        '3'
    } else if d == 4 {
        '4'
    } else if d == 5 {
        '5'
    } else if d == 6 {
        '6'
    } else if d == 7 {
        '7'
    } else if d == 8 {
        '8'
    } else {
        '9'
    }
}

/// `n` written in decimal, without leading zeros.
pub open spec fn decimal(n: nat) -> Seq<char>
    decreases n,
{
    if n < 10 {
        seq![digit_char(n)]
    } else {
        decimal(n / 10).push(digit_char(n % 10))
    }
}

/// A longer run of digits is worth at least as much as its prefix.
pub proof fn lemma_digits_value_prefix(ds: Seq<char>, k: int)
    requires
        0 <= k <= ds.len(),
    ensures
        digits_value(ds.subrange(0, k)) <= digits_value(ds),
    decreases ds.len(),
{
    if k < ds.len() {
        lemma_digits_value_prefix(ds.drop_last(), k);
        assert(ds.drop_last().subrange(0, k) =~= ds.subrange(0, k));
    } else {
        assert(ds.subrange(0, k) =~= ds);
    }
}

proof fn lemma_digit_char(d: nat)
    requires
        d < 10,
    ensures
        is_digit(digit_char(d)),
        digit_value(digit_char(d)) == d,
{
}

/// A number written in decimal is all digits and reads back as itself.
pub proof fn lemma_decimal(n: nat)
    ensures
        all_digits(decimal(n)),
        digits_value(decimal(n)) == n,
    decreases n,
{
    if n < 10 {
        lemma_digit_char(n);
        assert(decimal(n).drop_last() =~= Seq::<char>::empty());
        assert(digits_value(Seq::<char>::empty()) == 0);
    } else {
        lemma_decimal(n / 10);
        lemma_digit_char(n % 10);
        let prev = decimal(n / 10);
        assert(decimal(n).drop_last() =~= prev);
        assert forall|i: int| 0 <= i < decimal(n).len() implies is_digit(#[trigger] decimal(n)[i]) by {
            if i < prev.len() {
                assert(decimal(n)[i] == prev[i]);
            }
        }
        assert(digits_value(decimal(n)) == digits_value(prev) * 10 + n % 10);
        assert((n / 10) * 10 + n % 10 == n);
    }
}

/// A number written in decimal reads as that number.
pub proof fn lemma_parse_decimal(n: u32)
    ensures
        parse_u32(decimal(n as nat)) == Some(n),
{
    lemma_decimal(n as nat);
    let ds = decimal(n as nat);
    assert(is_digit(ds[0]));
    assert(unsigned_digits(ds) == ds);
}

/// A piece with no delimiter in it is the only piece.
pub proof fn lemma_pieces_undivided(x: Seq<char>)
    requires
        forall|i: int| 0 <= i < x.len() ==> #[trigger] x[i] != DELIMITER,
    ensures
        pieces(x) == seq![x],
    decreases x.len(),
{
    if x.len() == 0 {
        assert(x =~= Seq::<char>::empty());
    } else {
        let y = x.drop_last();
        assert forall|i: int| 0 <= i < y.len() implies #[trigger] y[i] != DELIMITER by {
            assert(y[i] == x[i]);
        }
        lemma_pieces_undivided(y);
        assert(x.last() != DELIMITER);
        assert(y.push(x.last()) =~= x);
        assert(pieces(x) =~= seq![x]);
    }
}

/// A delimiter followed by text without one adds that text as a last piece.
pub proof fn lemma_pieces_after_delimiter(a: Seq<char>, b: Seq<char>)
    requires
        forall|i: int| 0 <= i < b.len() ==> #[trigger] b[i] != DELIMITER,
    ensures
        pieces(a + seq![DELIMITER] + b) == pieces(a).push(b),
    decreases b.len(),
{
    let s = a + seq![DELIMITER] + b;
    if b.len() == 0 {
        assert(s.drop_last() =~= a);
        assert(b =~= Seq::<char>::empty());
    } else {
        let c = b.drop_last();
        assert forall|i: int| 0 <= i < c.len() implies #[trigger] c[i] != DELIMITER by {
            assert(c[i] == b[i]);
        }
        lemma_pieces_after_delimiter(a, c);
        assert(s.drop_last() =~= a + seq![DELIMITER] + c);
        assert(s.last() == b.last());
        assert(b.last() != DELIMITER);
        assert(c.push(b.last()) =~= b);
        assert(pieces(a).push(c).update(pieces(a).len() as int, b) =~= pieces(a).push(b));
    }
}

proof fn lemma_decimal_undivided(n: nat)
    ensures
        forall|i: int| 0 <= i < decimal(n).len() ==> #[trigger] decimal(n)[i] != DELIMITER,
{
    lemma_decimal(n);
    assert forall|i: int| 0 <= i < decimal(n).len() implies #[trigger] decimal(n)[i] != DELIMITER by {
        assert(is_digit(decimal(n)[i]));
    }
}

/// `"{c}d{s}"`, with both numbers in decimal, is a roll of `c` dice with
/// `s` sides each.
pub proof fn law_parse_count_and_sides(c: u32, s: u32)
    ensures
        parse_spec(decimal(c as nat) + seq![DELIMITER] + decimal(s as nat)) == Some((c, s)),
{
    let a = decimal(c as nat);
    let b = decimal(s as nat);
    lemma_decimal_undivided(c as nat);
    lemma_decimal_undivided(s as nat);
    lemma_pieces_undivided(a);
    lemma_pieces_after_delimiter(a, b);
    lemma_parse_decimal(c);
    lemma_parse_decimal(s);
    let ps = seq![a].push(b);
    assert(ps.drop_last() =~= seq![a]);
    assert(seq![a].drop_last() =~= Seq::<Seq<char>>::empty());
    assert(numbers(Seq::<Seq<char>>::empty()) =~= Seq::<u32>::empty());
    assert(numbers(seq![a]) =~= seq![c]);
    assert(numbers(ps) =~= seq![c, s]);
}

/// `"{s}"`, a number in decimal, is a roll of one die with `s` sides.
pub proof fn law_parse_sides_only(s: u32)
    ensures
        parse_spec(decimal(s as nat)) == Some((1u32, s)),
{
    let b = decimal(s as nat);
    lemma_decimal_undivided(s as nat);
    lemma_pieces_undivided(b);
    lemma_parse_decimal(s);
    assert(seq![b].drop_last() =~= Seq::<Seq<char>>::empty());
    assert(numbers(Seq::<Seq<char>>::empty()) =~= Seq::<u32>::empty());
    assert(numbers(seq![b]) =~= seq![s]);
}

/// A token whose pieces hold no integer, or three or more, means nothing.
pub proof fn law_parse_fails_without_one_or_two(s: Seq<char>)
    requires
        numbers(pieces(s)).len() == 0 || numbers(pieces(s)).len() >= 3,
    ensures
        parse_spec(s) is None,
{
}

/// Reads `s[lo..hi]` as a `u32`, as `str::parse::<u32>` does.
pub fn parse_piece(s: &str, lo: usize, hi: usize) -> (r: Option<u32>)
    requires
        lo <= hi <= s@.len(),
    ensures
        r == parse_u32(s@.subrange(lo as int, hi as int)),
{
    let ghost p = s@.subrange(lo as int, hi as int);
    let mut start = lo;
    if lo < hi && s.get_char(lo) == '+' {
        start = lo + 1;
    }
    let ghost ds = s@.subrange(start as int, hi as int);
    assert(ds =~= unsigned_digits(p));
    if start == hi {
        return None;
    }
    let mut val: u64 = 0;
    let mut j = start;
    while j < hi
        invariant
            start <= j <= hi,
            hi <= s@.len(),
            ds == s@.subrange(start as int, hi as int),
            ds == unsigned_digits(p),
            p == s@.subrange(lo as int, hi as int),
            val == digits_value(s@.subrange(start as int, j as int)),
            val <= u32::MAX,
            forall|k: int| start <= k < j ==> is_digit(#[trigger] s@[k]),
        decreases hi - j,
    {
        let c = s.get_char(j);
        if !('0' <= c && c <= '9') {
            assert(!is_digit(ds[j - start]));
            assert(!all_digits(ds));
            return None;
        }
        let ghost prev = s@.subrange(start as int, j as int);
        let ghost next = s@.subrange(start as int, j + 1);
        assert(next.drop_last() =~= prev);
        val = val * 10 + (c as u64 - '0' as u64);
        if val > u32::MAX as u64 {
            proof {
                lemma_digits_value_prefix(ds, j + 1 - start);
                assert(ds.subrange(0, j + 1 - start) =~= next);
                assert(digits_value(ds) > u32::MAX);
            }
            return None;
        }
        j = j + 1;
    }
    assert(s@.subrange(start as int, j as int) =~= ds);
    Some(val as u32)
}

} // verus!
