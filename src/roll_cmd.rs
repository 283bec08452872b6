//! A roll of dice, as a count of dice and a number of sides to each.
use vstd::prelude::*;
use crate::notation::{numbers, parse_piece, parse_spec, pieces, DELIMITER};
use crate::roll_result::RollResult;

verus! {

/// The text of the error for a token that is not dice notation.
pub open spec fn parse_error_text(s: Seq<char>) -> Seq<char> {
    "Invalid RollCmd: "@ + s
}

/// Roll parameters: how many dice, and how many sides each die has.
#[derive(Debug, Clone, Copy, PartialEq, Eq, Structural)]
pub struct RollCmd {
    count: u32,
    sides: u32,
}

/// A roll seen as `(count, sides)`.
impl View for RollCmd {
    type V = (u32, u32);

    open spec fn view(&self) -> (u32, u32) {
        (self.spec_count(), self.spec_sides())
    }
}

impl RollCmd {
    /// How many dice are rolled.
    pub closed spec fn spec_count(&self) -> u32 {
        self.count
    }

    /// How many sides each die has.
    pub closed spec fn spec_sides(&self) -> u32 {
        self.sides
    }

    /// Makes a roll of `c` dice with `s` sides each.
    pub fn new(c: u32, s: u32) -> (r: RollCmd)
        ensures
            r.spec_count() == c,
            r.spec_sides() == s,
            r@ == (c, s),
    {
        RollCmd { count: c, sides: s }
    }

    /// Two rolls are equal exactly when their counts and their sides are.
    pub proof fn lemma_view_eq(a: RollCmd, b: RollCmd)
        ensures
            (a@ == b@) == (a == b),
    {
    }

    /// Rolls the dice: calls `f` once per die, each time with the number of
    /// sides, and keeps what it returns in call order. The roll keeps no
    /// state of its own, so it can be rolled again.
    pub fn result<F: FnMut(u32) -> u32>(&self, mut f: F) -> (r: RollResult)
        requires
            call_requires(f, (self.spec_sides(),)),
        ensures
            r@.len() == self.spec_count(),
            forall|i: int| 0 <= i < r@.len() ==> call_ensures(f, (self.spec_sides(),), #[trigger] r@[i]),
    {
        let values = roll_values(self.count, self.sides, &mut f);
        RollResult::new(values)
    }

    /// Reads a token of dice notation: `"{count}d{sides}"`, or `"{sides}"`
    /// for one die. The token is split on `d`, pieces that are no integer
    /// are dropped, and the number of integers left decides.
    pub fn parse(s: &str) -> (r: Result<RollCmd, String>)
        ensures
            r is Ok <==> parse_spec(s@) is Some,
            r matches Ok(cmd) ==> parse_spec(s@) == Some((cmd.spec_count(), cmd.spec_sides())),
            r matches Err(e) ==> e@ == parse_error_text(s@),
    {
        let n = s.unicode_len();
        let mut nums: Vec<u32> = Vec::new();
        let mut start: usize = 0;
        let mut i: usize = 0;
        let ghost mut done: Seq<Seq<char>> = Seq::empty();
        assert(s@.subrange(0, 0) =~= Seq::<char>::empty());
        while i < n
            invariant
                n == s@.len(),
                start <= i <= n,
                pieces(s@.subrange(0, i as int)) == done.push(s@.subrange(start as int, i as int)),
                nums@ == numbers(done),
            decreases n - i,
        {
            let c = s.get_char(i);
            let ghost cur = s@.subrange(start as int, i as int);
            assert(s@.subrange(0, i + 1).drop_last() =~= s@.subrange(0, i as int));
            if c == DELIMITER {
                let p = parse_piece(s, start, i);
                if let Some(v) = p {
                    nums.push(v);
                }
                proof {
                    assert(done.push(cur).drop_last() =~= done);
                    done = done.push(cur);
                }
                start = i + 1;
                assert(s@.subrange(start as int, i + 1) =~= Seq::<char>::empty());
            } else {
                assert(s@.subrange(start as int, i + 1) =~= cur.push(c));
                assert(done.push(cur).update(done.len() as int, cur.push(c)) =~= done.push(
                    cur.push(c),
                ));
            }
            i = i + 1;
        }
        let p = parse_piece(s, start, n);
        if let Some(v) = p {
            nums.push(v);
        }
        proof {
            let last = s@.subrange(start as int, n as int);
            assert(done.push(last).drop_last() =~= done);
            assert(s@.subrange(0, n as int) =~= s@);
        }
        if nums.len() == 2 {
            Ok(RollCmd::new(nums[0], nums[1]))
        } else if nums.len() == 1 {
            Ok(RollCmd::new(1, nums[0]))
        } else {
            let mut e = String::from_str("Invalid RollCmd: ");
            e.append(s);
            Err(e)
        }
    }
}

/// Reads a token as `RollCmd::parse` does.
impl std::str::FromStr for RollCmd {
    type Err = String;

    fn from_str(s: &str) -> (r: Result<RollCmd, String>)
        ensures
            r is Ok <==> parse_spec(s@) is Some,
            r matches Ok(cmd) ==> parse_spec(s@) == Some((cmd.spec_count(), cmd.spec_sides())),
            r matches Err(e) ==> e@ == parse_error_text(s@),
    {
        RollCmd::parse(s)
    }
}

/// Calls `f` with `sides` once for each of `count` dice, keeping what it
/// returns in call order.
fn roll_values<F: FnMut(u32) -> u32>(count: u32, sides: u32, f: &mut F) -> (r: Vec<u32>)
    requires
        call_requires(*old(f), (sides,)),
    ensures
        *final(f) == *old(f),
        r@.len() == count,
        forall|i: int| 0 <= i < r@.len() ==> call_ensures(*old(f), (sides,), #[trigger] r@[i]),
{
    let mut values: Vec<u32> = Vec::new();
    let mut i: u32 = 0;
    while i < count
        invariant
            *f == *old(f),
            i <= count,
            values@.len() == i,
            call_requires(*f, (sides,)),
            forall|j: int| 0 <= j < i ==> call_ensures(*f, (sides,), #[trigger] values@[j]),
        decreases count - i,
    {
        let v = f(sides);
        values.push(v);
        i = i + 1;
    }
    values
}

/// The rolls that the tokens stand for, in order; tokens that are not dice
/// notation are left out.
pub open spec fn parse_all_spec(tokens: Seq<String>) -> Seq<(u32, u32)>
    decreases tokens.len(),
{
    if tokens.len() == 0 {
        Seq::empty()
    } else {
        let rest = parse_all_spec(tokens.drop_last());
        match parse_spec(tokens.last()@) {
            Some(cmd) => rest.push(cmd),
            None => rest,
        }
    }
}

/// Whether a token is dice notation.
pub open spec fn is_notation(t: String) -> bool {
    parse_spec(t@) is Some
}

/// The roll that a token of dice notation stands for.
pub open spec fn notation_roll(t: String) -> (u32, u32) {
    parse_spec(t@).unwrap()
}

/// A batch gives one roll for each token that is dice notation, in the
/// order of the tokens, and nothing for the others.
pub proof fn law_batch_keeps_notation_in_order(tokens: Seq<String>)
    ensures
        parse_all_spec(tokens) == tokens.filter(|t: String| is_notation(t)).map_values(
            |t: String| notation_roll(t),
        ),
    decreases tokens.len(),
{
    reveal(Seq::filter);
    if tokens.len() > 0 {
        law_batch_keeps_notation_in_order(tokens.drop_last());
        let kept = tokens.drop_last().filter(|t: String| is_notation(t));
        assert(kept.push(tokens.last()).map_values(|t: String| notation_roll(t)) =~= kept.map_values(
            |t: String| notation_roll(t),
        ).push(notation_roll(tokens.last())));
    } else {
        assert(tokens.filter(|t: String| is_notation(t)) =~= Seq::<String>::empty());
        assert(parse_all_spec(tokens) =~= Seq::<(u32, u32)>::empty());
    }
}

/// Reads each token as dice notation and keeps the rolls of those that are,
/// in order; the others are dropped without a word.
pub fn parse_all(tokens: &Vec<String>) -> (r: Vec<RollCmd>)
    ensures
        r@.len() == parse_all_spec(tokens@).len(),
        forall|j: int| 0 <= j < r@.len() ==> #[trigger] r@[j]@ == parse_all_spec(tokens@)[j],
{
    let mut cmds: Vec<RollCmd> = Vec::new();
    let mut i: usize = 0;
    while i < tokens.len()
        invariant
            i <= tokens.len(),
            cmds@.len() == parse_all_spec(tokens@.subrange(0, i as int)).len(),
            forall|j: int|
                0 <= j < cmds@.len() ==> #[trigger] cmds@[j]@ == parse_all_spec(
                    tokens@.subrange(0, i as int),
                )[j],
        decreases tokens.len() - i,
    {
        assert(tokens@.subrange(0, i + 1).drop_last() =~= tokens@.subrange(0, i as int));
        if let Ok(cmd) = <RollCmd as std::str::FromStr>::from_str(tokens[i].as_str()) {
            cmds.push(cmd);
        }
        i = i + 1;
    }
    assert(tokens@.subrange(0, i as int) =~= tokens@);
    cmds
}

/// Rolls every token that is dice notation, in order, drawing each die from
/// `f`; tokens that are not dice notation give no result.
pub fn roll_all<F: FnMut(u32) -> u32>(tokens: &Vec<String>, mut f: F) -> (r: Vec<RollResult>)
    requires
        forall|x: u32| call_requires(f, (x,)),
    ensures
        r@.len() == parse_all_spec(tokens@).len(),
        forall|j: int|
            0 <= j < r@.len() ==> (#[trigger] r@[j])@.len() == parse_all_spec(tokens@)[j].0,
        forall|j: int, k: int|
            0 <= j < r@.len() && 0 <= k < r@[j]@.len() ==> call_ensures(
                f,
                (parse_all_spec(tokens@)[j].1,),
                #[trigger] r@[j]@[k],
            ),
{
    let cmds = parse_all(tokens);
    let mut results: Vec<RollResult> = Vec::new();
    let ghost f0 = f;
    let mut i: usize = 0;
    while i < cmds.len()
        invariant
            f == f0,
            i <= cmds.len(),
            forall|x: u32| call_requires(f, (x,)),
            results@.len() == i,
            forall|j: int| 0 <= j < i ==> (#[trigger] results@[j])@.len() == cmds@[j]@.0,
            forall|j: int, k: int|
                0 <= j < i && 0 <= k < results@[j]@.len() ==> call_ensures(
                    f,
                    (cmds@[j]@.1,),
                    #[trigger] results@[j]@[k],
                ),
        decreases cmds.len() - i,
    {
        let values = roll_values(cmds[i].count, cmds[i].sides, &mut f);
        results.push(RollResult::new(values));
        i = i + 1;
    }
    results
}

} // verus!
