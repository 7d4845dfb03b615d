//! Operation modes and their resolution from the leading command words.
use vstd::prelude::*;
use vstd::string::StringSliceAdditionalSpecFns;
use vstd::utf8::encode_utf8_decode_utf8;

verus! {

/// How a distribution is ordered for presentation.
#[derive(Debug, Clone, Copy, PartialEq, Eq, Structural)]
pub enum StatsOrder {
    /// Ascending by occurrence count.
    Freq,
    /// Ascending by sum.
    Val,
}

/// What a roll reports.
#[derive(Debug, Clone, Copy, PartialEq, Eq, Structural)]
pub enum RollKind {
    Sum,
    Rolls,
    SumRolls,
}

/// The topic of a help request.
#[derive(Debug, Clone, Copy, PartialEq, Eq, Structural)]
pub enum HelpTopic {
    General,
    Roll,
    Stats,
}

/// The operation one invocation performs.
#[derive(Debug, Clone, Copy, PartialEq, Eq, Structural)]
pub enum Mode {
    Help(HelpTopic),
    Roll(RollKind),
    Stats(StatsOrder),
}

/// The token at `i`, or the empty word past the end.
pub open spec fn word_at(tokens: Seq<Seq<char>>, i: int) -> Seq<char> {
    if 0 <= i < tokens.len() {
        tokens[i]
    } else {
        Seq::empty()
    }
}

/// The mode that the leading words select, and how many words it consumes.
///
/// A first word `stats`, `help` or `roll` names the family; a second word
/// may then name a variant of it. A word that names nothing is left in place,
/// and the family's base mode applies; with no family word that is a roll.
pub open spec fn resolve(tokens: Seq<Seq<char>>) -> (Mode, nat) {
    let first = word_at(tokens, 0);
    let second = word_at(tokens, 1);
    if first == "stats"@ {
        if second == "freq"@ {
            (Mode::Stats(StatsOrder::Freq), 2)
        } else if second == "val"@ {
            (Mode::Stats(StatsOrder::Val), 2)
        } else {
            (Mode::Stats(StatsOrder::Freq), 1)
        }
    } else if first == "help"@ {
        if second == "stats"@ {
            (Mode::Help(HelpTopic::Stats), 2)
        } else if second == "roll"@ {
            (Mode::Help(HelpTopic::Roll), 2)
        } else {
            (Mode::Help(HelpTopic::General), 1)
        }
    } else if first == "roll"@ {
        if second == "sum"@ {
            (Mode::Roll(RollKind::Sum), 2)
        } else if second == "rolls"@ {
            (Mode::Roll(RollKind::Rolls), 2)
        } else if second == "sum_rolls"@ {
            (Mode::Roll(RollKind::SumRolls), 2)
        } else {
            (Mode::Roll(RollKind::SumRolls), 1)
        }
    } else {
        (Mode::Roll(RollKind::SumRolls), 0)
    }
}

/// The mode words are consumed from the tokens that are there.
pub proof fn lemma_resolve_within(tokens: Seq<Seq<char>>)
    ensures
        resolve(tokens).1 <= tokens.len(),
{
    reveal_strlit("freq");
    reveal_strlit("val");
    reveal_strlit("stats");
    reveal_strlit("roll");
    reveal_strlit("sum");
    reveal_strlit("rolls");
    reveal_strlit("sum_rolls");
    reveal_strlit("help");
    if tokens.len() < 2 {
        assert(word_at(tokens, 1).len() == 0);
        assert("freq"@.len() > 0 && "val"@.len() > 0 && "stats"@.len() > 0 && "roll"@.len() > 0);
        assert("sum"@.len() > 0 && "rolls"@.len() > 0 && "sum_rolls"@.len() > 0);
    }
    if tokens.len() < 1 {
        assert(word_at(tokens, 0).len() == 0);
        assert("help"@.len() > 0 && "stats"@.len() > 0 && "roll"@.len() > 0);
    }
}

/// Whether two strings hold the same characters.
pub fn same_text(a: &str, b: &str) -> (r: bool)
    ensures
        r == (a@ == b@),
{
    let x = a.as_bytes();
    let y = b.as_bytes();
    proof {
        encode_utf8_decode_utf8(a@);
        encode_utf8_decode_utf8(b@);
    }
    if x.len() != y.len() {
        return false;
    }
    let mut i: usize = 0;
    while i < x.len()
        invariant
            x@ == a.spec_bytes(),
            y@ == b.spec_bytes(),
            x@.len() == y@.len(),
            i <= x@.len(),
            forall|k: int| 0 <= k < i ==> x@[k] == y@[k],
        decreases x.len() - i,
    {
        if x[i] != y[i] {
            return false;
        }
        i = i + 1;
    }
    assert(x@ =~= y@);
    true
}

/// The word at `i` of `tokens`, or the empty word past the end.
fn word(tokens: &Vec<String>, i: usize) -> (r: &str)
    ensures
        r@ == word_at(tokens@.map_values(|t: String| t@), i as int),
{
    if i < tokens.len() {
        tokens[i].as_str()
    } else {
        proof {
            reveal_strlit("");
        }
        ""
    }
}

/// Resolves the mode from the leading words of `tokens`; returns it with
/// the number of words it consumed.
pub fn resolve_mode(tokens: &Vec<String>) -> (r: (Mode, usize))
    ensures
        r.0 == resolve(tokens@.map_values(|t: String| t@)).0,
        r.1 as nat == resolve(tokens@.map_values(|t: String| t@)).1,
        r.1 <= tokens@.len(),
{
    proof {
        lemma_resolve_within(tokens@.map_values(|t: String| t@));
    }
    let first = word(tokens, 0);
    let second = word(tokens, 1);
    if same_text(first, "stats") {
        if same_text(second, "freq") {
            (Mode::Stats(StatsOrder::Freq), 2)
        } else if same_text(second, "val") {
            (Mode::Stats(StatsOrder::Val), 2)
        } else {
            (Mode::Stats(StatsOrder::Freq), 1)
        }
    } else if same_text(first, "help") {
        if same_text(second, "stats") {
            (Mode::Help(HelpTopic::Stats), 2)
        } else if same_text(second, "roll") {
            (Mode::Help(HelpTopic::Roll), 2)
        } else {
            (Mode::Help(HelpTopic::General), 1)
        }
    } else if same_text(first, "roll") {
        if same_text(second, "sum") {
            (Mode::Roll(RollKind::Sum), 2)
        } else if same_text(second, "rolls") {
            (Mode::Roll(RollKind::Rolls), 2)
        } else if same_text(second, "sum_rolls") {
            (Mode::Roll(RollKind::SumRolls), 2)
        } else {
            (Mode::Roll(RollKind::SumRolls), 1)
        }
    } else {
        (Mode::Roll(RollKind::SumRolls), 0)
    }
}

} // verus!
