//! From the words of a command line to a mode and the dice it acts on.
use vstd::prelude::*;
use vstd::utf8::{encode_utf8, is_ascii_chars, is_ascii_chars_encode_utf8};

use crate::mode::{resolve, resolve_mode, Mode};
use crate::mode::word_at;
use crate::notation::{
    die_of, numeral, parse_die, sole_separator, unsigned_digits, DiceError, Die, PLUS,
};

verus! {

/// The characters of each token.
pub open spec fn token_views(tokens: Seq<String>) -> Seq<Seq<char>> {
    tokens.map_values(|t: String| t@)
}

/// The dice that the tokens denote, in order, or the error of the first
/// token that denotes none.
pub open spec fn parse_all(tokens: Seq<Seq<char>>) -> Result<Seq<Die>, DiceError>
    decreases tokens.len(),
{
    if tokens.len() == 0 {
        Ok(seq![])
    } else {
        match parse_all(tokens.drop_last()) {
            Err(e) => Err(e),
            Ok(dice) => match die_of(encode_utf8(tokens.last())) {
                Ok(d) => Ok(dice.push(d)),
                Err(e) => Err(e),
            },
        }
    }
}

/// What a command line asks for: its mode, and the dice that the words after
/// the mode words denote. Without such words the statistics mode has nothing
/// to work on, and every other mode takes one six-sided die.
pub open spec fn args_result(tokens: Seq<Seq<char>>) -> Result<(Seq<Die>, Mode), DiceError> {
    let (mode, used) = resolve(tokens);
    let rest = tokens.subrange(used as int, tokens.len() as int);
    match parse_all(rest) {
        Err(e) => Err(e),
        Ok(dice) => if rest.len() > 0 {
            Ok((dice, mode))
        } else if mode is Stats {
            Err(DiceError::MissingDice)
        } else {
            Ok((seq![(1usize, 6usize)], mode))
        },
    }
}

/// Once a token fails, every longer list fails with the same error.
proof fn lemma_parse_all_fails(tokens: Seq<Seq<char>>, k: int)
    requires
        0 <= k <= tokens.len(),
        parse_all(tokens.subrange(0, k)) is Err,
    ensures
        parse_all(tokens) == parse_all(tokens.subrange(0, k)),
    decreases tokens.len(),
{
    if k < tokens.len() {
        assert(tokens.drop_last().subrange(0, k) =~= tokens.subrange(0, k));
        lemma_parse_all_fails(tokens.drop_last(), k);
    } else {
        assert(tokens.subrange(0, k) =~= tokens);
    }
}

/// Resolves the mode from the command words and parses every word after
/// them as dice.
pub fn get_args(args: &Vec<String>) -> (r: Result<(Vec<Die>, Mode), DiceError>)
    ensures
        match r {
            Ok((dice, mode)) => args_result(token_views(args@)) == Ok::<(Seq<Die>, Mode), DiceError>(
                (dice@, mode),
            ),
            Err(e) => args_result(token_views(args@)) == Err::<(Seq<Die>, Mode), DiceError>(e),
        },
{
    let ghost all = token_views(args@);
    let (mode, used) = resolve_mode(args);
    let ghost rest = all.subrange(used as int, all.len() as int);
    let mut dice: Vec<Die> = Vec::new();
    let mut i = used;
    assert(rest.subrange(0, 0).len() == 0);
    while i < args.len()
        invariant
            used <= i <= args.len(),
            all == token_views(args@),
            resolve(all).1 == used as nat,
            rest == all.subrange(used as int, all.len() as int),
            parse_all(rest.subrange(0, i - used)) == Ok::<Seq<Die>, DiceError>(dice@),
        decreases args.len() - i,
    {
        let ghost next = rest.subrange(0, i + 1 - used);
        assert(next.drop_last() =~= rest.subrange(0, i - used));
        assert(next.last() == args@[i as int]@);
        match parse_die(args[i].as_str()) {
            Ok(d) => dice.push(d),
            Err(e) => {
                proof {
                    lemma_parse_all_fails(rest, i + 1 - used);
                }
                return Err(e);
            },
        }
        i = i + 1;
    }
    assert(rest.subrange(0, i - used) =~= rest);
    if used == args.len() {
        match mode {
            Mode::Stats(_) => Err(DiceError::MissingDice),
            _ => {
                dice.push((1, 6));
                assert(dice@ =~= seq![(1usize, 6usize)]);
                Ok((dice, mode))
            },
        }
    } else {
        Ok((dice, mode))
    }
}

/// A word of ASCII that starts with a lower-case letter other than the
/// separator denotes no die.
proof fn lemma_word_not_die(w: Seq<char>)
    requires
        w.len() > 0,
        is_ascii_chars(w),
        'a' <= w[0] <= 'z',
        w[0] != 'd',
    ensures
        die_of(encode_utf8(w)) is Err,
{
    let s = encode_utf8(w);
    is_ascii_chars_encode_utf8(w);
    assert(s[0] == w[0] as u8);
    if exists|i: int| sole_separator(s, i) {
        let i = choose|i: int| sole_separator(s, i);
        let head = s.subrange(0, i);
        if numeral(head) is Some {
            assert(head[0] == s[0]);
            assert(s[0] != PLUS);
            assert(unsigned_digits(head) == head);
            assert(crate::notation::is_digit(head[0]));
        }
    }
}

/// No mode word denotes a die.
proof fn lemma_mode_words_not_dice(t: Seq<char>)
    requires
        die_of(encode_utf8(t)) is Ok,
    ensures
        t != "stats"@ && t != "help"@ && t != "roll"@,
        t != "freq"@ && t != "val"@,
        t != "sum"@ && t != "rolls"@ && t != "sum_rolls"@,
{
    reveal_strlit("stats");
    reveal_strlit("help");
    reveal_strlit("roll");
    reveal_strlit("freq");
    reveal_strlit("val");
    reveal_strlit("sum");
    reveal_strlit("rolls");
    reveal_strlit("sum_rolls");
    if t == "stats"@ || t == "help"@ || t == "roll"@ || t == "freq"@ || t == "val"@ || t == "sum"@
        || t == "rolls"@ || t == "sum_rolls"@ {
        assert(is_ascii_chars(t));
        lemma_word_not_die(t);
    }
}

/// Rolling with no dice words is rolling one six-sided die: after mode words
/// that select a roll, adding a token that denotes one six-sided die changes
/// nothing.
pub proof fn lemma_default_die(words: Seq<Seq<char>>, t: Seq<char>)
    requires
        resolve(words).0 is Roll,
        resolve(words).1 == words.len(),
        die_of(encode_utf8(t)) == Ok::<Die, DiceError>((1usize, 6usize)),
    ensures
        args_result(words.push(t)) == args_result(words),
{
    let longer = words.push(t);
    lemma_mode_words_not_dice(t);
    crate::mode::lemma_resolve_within(words);
    assert(word_at(longer, 0) == word_at(words, 0) || words.len() == 0);
    if words.len() <= 1 {
        assert(word_at(words, 1) == Seq::<char>::empty());
        assert(word_at(longer, 1) == t || words.len() == 0);
    } else {
        assert(word_at(longer, 1) == word_at(words, 1));
    }
    assert(resolve(longer) == resolve(words));
    let rest = longer.subrange(words.len() as int, longer.len() as int);
    assert(rest =~= seq![t]);
    assert(rest.drop_last() =~= Seq::<Seq<char>>::empty());
    assert(parse_all(Seq::<Seq<char>>::empty()) == Ok::<Seq<Die>, DiceError>(seq![]));
    assert(rest.last() == t);
    assert(Seq::<Die>::empty().push((1usize, 6usize)) =~= seq![(1usize, 6usize)]);
    assert(parse_all(rest) == Ok::<Seq<Die>, DiceError>(seq![(1usize, 6usize)]));
    assert(words.subrange(words.len() as int, words.len() as int).len() == 0);
}

/// The statistics mode with no dice words is refused before any distribution
/// is computed.
pub proof fn lemma_stats_needs_dice(words: Seq<Seq<char>>)
    requires
        resolve(words).0 is Stats,
        resolve(words).1 == words.len(),
    ensures
        args_result(words) == Err::<(Seq<Die>, Mode), DiceError>(DiceError::MissingDice),
{
    assert(words.subrange(words.len() as int, words.len() as int).len() == 0);
}

} // verus!
