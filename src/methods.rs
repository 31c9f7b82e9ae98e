//! The named strategies, as they are chosen by name from the command line.
use vstd::prelude::*;
use vstd::string::*;

verus! {

/// A search strategy: `Method1` repeated random plays, `Method2` exhaustive search under
/// a rising dead-tile ceiling, `Method3` lookahead, `Method4` a shared queue of positions
/// drained by worker threads, `Method5` and `Method6` branch and bound against a shared
/// best (from the first clicks, or from the whole board with shuffled groups), `Method7`
/// random plays on worker threads, `Method8` decomposition into clusters, `Method9`
/// goal-directed random plays, `Method10` greedy play.
#[derive(Debug, Clone, Copy, PartialEq, Eq)]
pub enum SolvingMethods {
    Method1,
    Method2,
    Method3,
    Method4,
    Method5,
    Method6,
    Method7,
    Method8,
    Method9,
    Method10,
}

/// The name of each strategy.
pub open spec fn method_name(m: SolvingMethods) -> Seq<char> {
    match m {
        SolvingMethods::Method1 => "Method1"@,
        SolvingMethods::Method2 => "Method2"@,
        SolvingMethods::Method3 => "Method3"@,
        SolvingMethods::Method4 => "Method4"@,
        SolvingMethods::Method5 => "Method5"@,
        SolvingMethods::Method6 => "Method6"@,
        SolvingMethods::Method7 => "Method7"@,
        SolvingMethods::Method8 => "Method8"@,
        SolvingMethods::Method9 => "Method9"@,
        SolvingMethods::Method10 => "Method10"@,
    }
}

impl SolvingMethods {
    /// The strategy used when none is named.
    pub fn default() -> (r: SolvingMethods)
        ensures
            r == SolvingMethods::Method4,
    {
        SolvingMethods::Method4
    }

    /// The strategy of the given name, or a message that names the unknown one.
    pub fn parse_name(s: &str) -> (r: Result<SolvingMethods, String>)
        ensures
            match r {
                Ok(m) => method_name(m) == s@,
                Err(e) => (forall|m: SolvingMethods| method_name(m) != s@) && e@ == "Unknown solving method '"@
                    + s@ + "'"@,
            },
    {
        let name = String::from_str(s);
        let candidates: [SolvingMethods; 10] = [
            SolvingMethods::Method1,
            SolvingMethods::Method2,
            SolvingMethods::Method3,
            SolvingMethods::Method4,
            SolvingMethods::Method5,
            SolvingMethods::Method6,
            SolvingMethods::Method7,
            SolvingMethods::Method8,
            SolvingMethods::Method9,
            SolvingMethods::Method10,
        ];
        let mut i: usize = 0;
        while i < 10
            invariant
                0 <= i <= 10,
                name@ == s@,
                candidates@ == seq![
                    SolvingMethods::Method1,
                    SolvingMethods::Method2,
                    SolvingMethods::Method3,
                    SolvingMethods::Method4,
                    SolvingMethods::Method5,
                    SolvingMethods::Method6,
                    SolvingMethods::Method7,
                    SolvingMethods::Method8,
                    SolvingMethods::Method9,
                    SolvingMethods::Method10,
                ],
                forall|k: int| 0 <= k < i ==> method_name(#[trigger] candidates@[k]) != s@,
            decreases 10 - i,
        {
            let m = candidates[i];
            let candidate = String::from_str(m.name());
            if candidate == name {
                return Ok(m);
            }
            i += 1;
        }
        proof {
            assert forall|m: SolvingMethods| method_name(m) != s@ by {
                let k: int = match m {
                    SolvingMethods::Method1 => 0,
                    SolvingMethods::Method2 => 1,
                    SolvingMethods::Method3 => 2,
                    SolvingMethods::Method4 => 3,
                    SolvingMethods::Method5 => 4,
                    SolvingMethods::Method6 => 5,
                    SolvingMethods::Method7 => 6,
                    SolvingMethods::Method8 => 7,
                    SolvingMethods::Method9 => 8,
                    SolvingMethods::Method10 => 9,
                };
                assert(candidates@[k] == m);
            }
        }
        let mut message = String::from_str("Unknown solving method '");
        message.append(s);
        message.append("'");
        proof {
            reveal_strlit("Unknown solving method '");
            reveal_strlit("'");
        }
        Err(message)
    }

    /// The name of the strategy.
    pub fn name(&self) -> (r: &'static str)
        ensures
            r@ == method_name(*self),
    {
        match self {
            SolvingMethods::Method1 => "Method1",
            SolvingMethods::Method2 => "Method2",
            SolvingMethods::Method3 => "Method3",
            SolvingMethods::Method4 => "Method4",
            SolvingMethods::Method5 => "Method5",
            SolvingMethods::Method6 => "Method6",
            SolvingMethods::Method7 => "Method7",
            SolvingMethods::Method8 => "Method8",
            SolvingMethods::Method9 => "Method9",
            SolvingMethods::Method10 => "Method10",
        }
    }
}

impl std::str::FromStr for SolvingMethods {
    type Err = String;

    fn from_str(s: &str) -> Result<SolvingMethods, String> {
        SolvingMethods::parse_name(s)
    }
}

} // verus!
