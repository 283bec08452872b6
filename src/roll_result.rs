//! The outcome of one roll: the value of each die, in the order rolled.
use vstd::prelude::*;
use crate::notation::{decimal, digit_char};

verus! {

/// The sum of the values.
pub open spec fn sum(vs: Seq<u32>) -> int
    decreases vs.len(),
{
    if vs.len() == 0 {
        0
    } else {
        sum(vs.drop_last()) + vs.last()
    }
}

/// The values in decimal, separated by `", "`.
pub open spec fn joined(vs: Seq<u32>) -> Seq<char>
    decreases vs.len(),
{
    if vs.len() == 0 {
        Seq::empty()
    } else if vs.len() == 1 {
        decimal(vs[0] as nat)
    } else {
        joined(vs.drop_last()) + ", "@ + decimal(vs.last() as nat)
    }
}

/// The values, then their total: `"2, 3, 3 (Total: 8)"`.
pub open spec fn display(vs: Seq<u32>) -> Seq<char> {
    joined(vs) + " (Total: "@ + decimal(sum(vs) as nat) + ")"@
}

pub proof fn lemma_sum_bounds(vs: Seq<u32>)
    ensures
        0 <= sum(vs) <= vs.len() * u32::MAX,
    decreases vs.len(),
{
    if vs.len() > 0 {
        lemma_sum_bounds(vs.drop_last());
    }
}

/// The values of the dice of one roll, in the order they were rolled.
pub struct RollResult(Vec<u32>);

impl View for RollResult {
    type V = Seq<u32>;

    closed spec fn view(&self) -> Seq<u32> {
        self.0@
    }
}

impl RollResult {
    /// No more dice than a roll can have.
    #[verifier::type_invariant]
    spec fn inv(&self) -> bool {
        self.0.len() <= u32::MAX
    }

    /// Holds the values of a roll, one per die.
    pub fn new(values: Vec<u32>) -> (r: RollResult)
        requires
            values.len() <= u32::MAX,
        ensures
            r@ == values@,
    {
        RollResult(values)
    }

    /// Walks the values in the order rolled.
    pub fn iter<'a>(&'a self) -> (r: std::slice::Iter<'a, u32>)
        ensures
            vstd::std_specs::slice::into_iter_elts(r) == self@,
    {
        self.0.iter()
    }

    /// The sum of the values; it always fits in 64 bits.
    pub fn total(&self) -> (r: u64)
        ensures
            r == sum(self@),
    {
        proof {
            use_type_invariant(self);
        }
        let mut acc: u64 = 0;
        let mut i: usize = 0;
        while i < self.0.len()
            invariant
                i <= self.0.len() <= u32::MAX,
                acc == sum(self.0@.subrange(0, i as int)),
            decreases self.0.len() - i,
        {
            let ghost pre = self.0@.subrange(0, i as int);
            proof {
                assert(self.0@.subrange(0, i + 1).drop_last() =~= pre);
                lemma_sum_bounds(pre);
                assert(acc + self.0@[i as int] <= (i + 1) * u32::MAX) by (nonlinear_arith)
                    requires
                        acc <= i * u32::MAX,
                        self.0@[i as int] <= u32::MAX,
                ;
                assert((i + 1) * u32::MAX <= u32::MAX * u32::MAX) by (nonlinear_arith)
                    requires
                        i + 1 <= u32::MAX,
                ;
            }
            acc = acc + self.0[i] as u64;
            i = i + 1;
        }
        assert(self.0@.subrange(0, i as int) =~= self.0@);
        acc
    }

    /// The values, one per die, in the order rolled.
    pub fn values(&self) -> (r: &[u32])
        ensures
            r@ == self@,
    {
        self.0.as_slice()
    }

    /// The values in decimal, separated by `", "`, then a space and
    /// `(Total: {sum})`. No values give `" (Total: 0)"`.
    pub fn to_display_string(&self) -> (r: String)
        ensures
            r@ == display(self@),
    {
        let mut out = String::new();
        let mut i: usize = 0;
        while i < self.0.len()
            invariant
                i <= self.0.len(),
                out@ == joined(self.0@.subrange(0, i as int)),
            decreases self.0.len() - i,
        {
            let ghost pre = self.0@.subrange(0, i as int);
            let ghost next = self.0@.subrange(0, i + 1);
            assert(next.drop_last() =~= pre);
            if i > 0 {
                out.append(", ");
            } else {
                assert(pre =~= Seq::<u32>::empty());
            }
            let d = decimal_string(self.0[i] as u64);
            out.append(d.as_str());
            i = i + 1;
        }
        assert(self.0@.subrange(0, i as int) =~= self.0@);
        let t = decimal_string(self.total());
        out.append(" (Total: ");
        out.append(t.as_str());
        out.append(")");
        out
    }
}

/// The one-character text of a decimal digit.
fn digit_str(d: u64) -> (r: &'static str)
    requires
        d < 10,
    ensures
        r@ == seq![digit_char(d as nat)],
{
    proof {
        reveal_strlit("0");
        reveal_strlit("1");
        reveal_strlit("2");
        reveal_strlit("3");
        reveal_strlit("4");
        reveal_strlit("5");
        reveal_strlit("6");
        reveal_strlit("7");
        reveal_strlit("8");
        reveal_strlit("9");
    }
    if d == 0 {
        "0"
    } else if d == 1 {
        "1"
    } else if d == 2 {
        "2"
    } else if d == 3 {
        "3"
    } else if d == 4 {
        "4"
    } else if d == 5 {
        "5"
    } else if d == 6 {
        "6"
    } else if d == 7 {
        "7"
    } else if d == 8 {
        "8"
    } else {
        "9"
    }
}

/// Writes `n` in decimal.
pub fn decimal_string(n: u64) -> (r: String)
    ensures
        r@ == decimal(n as nat),
    decreases n,
{
    if n < 10 {
        String::from_str(digit_str(n))
    } else {
        let mut s = decimal_string(n / 10);
        s.append(digit_str(n % 10));
        s
    }
}

} // verus!
