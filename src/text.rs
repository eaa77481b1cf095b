use vstd::prelude::*;
use crate::card::{Card, ParseError, card_of_token, chars_of, parse_card_chars, valid_rank};
use crate::hand::{Hand, build_from_vec, sort_by_rank_spec};

verus! {

/// The fields of a text separated by single spaces; two spaces in a row
/// enclose an empty field, and a text without spaces is one field.
pub open spec fn fields(s: Seq<char>) -> Seq<Seq<char>>
    decreases s.len(),
{
    if s.len() == 0 {
        seq![Seq::empty()]
    } else {
        let f = fields(s.drop_last());
        if s.last() == ' ' {
            f.push(Seq::empty())
        } else {
            f.update(f.len() - 1, f.last().push(s.last()))
        }
    }
}

proof fn lemma_fields_nonempty(s: Seq<char>)
    ensures
        fields(s).len() >= 1,
    decreases s.len(),
{
    if s.len() > 0 {
        lemma_fields_nonempty(s.drop_last());
    }
}

/// The cards that a sequence of card tokens denotes, or the error of the
/// leftmost token that denotes none.
pub open spec fn cards_of_tokens(ts: Seq<Seq<char>>) -> Result<Seq<Card>, ParseError>
    decreases ts.len(),
{
    if ts.len() == 0 {
        Ok(Seq::empty())
    } else {
        match cards_of_tokens(ts.drop_last()) {
            Err(e) => Err(e),
            Ok(cs) => match card_of_token(ts.last()) {
                Err(e) => Err(e),
                Ok(c) => Ok(cs.push(c)),
            },
        }
    }
}

/// The cards that a hand's text denotes: five space-separated card tokens.
pub open spec fn cards_of_text(s: Seq<char>) -> Result<Seq<Card>, ParseError> {
    if fields(s).len() != 5 {
        Err(ParseError::WrongCardCount)
    } else {
        cards_of_tokens(fields(s))
    }
}

fn split_fields(t: &Vec<char>) -> (r: Vec<Vec<char>>)
    ensures
        r@.len() == fields(t@).len(),
        forall|k: int| 0 <= k < r@.len() ==> (#[trigger] r@[k])@ == fields(t@)[k],
{
    let mut toks: Vec<Vec<char>> = Vec::new();
    let mut cur: Vec<char> = Vec::new();
    let mut i: usize = 0;
    while i < t.len()
        invariant
            i <= t@.len(),
            toks@.len() + 1 == fields(t@.take(i as int)).len(),
            forall|k: int| 0 <= k < toks@.len() ==> (#[trigger] toks@[k])@ == fields(t@.take(i as int))[k],
            cur@ == fields(t@.take(i as int)).last(),
        decreases t@.len() - i,
    {
        proof {
            lemma_fields_nonempty(t@.take(i as int));
            assert(t@.take(i + 1).drop_last() =~= t@.take(i as int));
        }
        let c = t[i];
        if c == ' ' {
            toks.push(cur);
            cur = Vec::new();
            assert(cur@ =~= Seq::<char>::empty());
        } else {
            cur.push(c);
        }
        i = i + 1;
    }
    assert(t@.take(t@.len() as int) =~= t@);
    toks.push(cur);
    toks
}

/// Reads a hand from its text: five card tokens separated by single spaces, such
/// as "10S JS QS KS AS". The hand keeps the text it was read from.
pub fn parse(hand: &str) -> (r: Result<Hand, ParseError>)
    ensures
        match cards_of_text(hand@) {
            Err(e) => r == Err::<Hand, ParseError>(e),
            Ok(cs) => r is Ok && r->Ok_0.wf() && r->Ok_0.cards@ == sort_by_rank_spec(cs)
                && r->Ok_0.original_text@ == hand@,
        },
{
    let chars = chars_of(hand);
    let toks = split_fields(&chars);
    if toks.len() != 5 {
        return Err(ParseError::WrongCardCount);
    }
    let ghost ts = fields(hand@);
    let mut cards: Vec<Card> = Vec::new();
    let mut i: usize = 0;
    while i < 5
        invariant
            i <= 5,
            ts == fields(hand@),
            ts.len() == 5,
            toks@.len() == 5,
            forall|k: int| 0 <= k < 5 ==> (#[trigger] toks@[k])@ == ts[k],
            cards_of_tokens(ts.take(i as int)) == Ok::<Seq<Card>, ParseError>(cards@),
            cards@.len() == i,
            forall|k: int| 0 <= k < cards@.len() ==> valid_rank(#[trigger] cards@[k].rank as nat),
        decreases 5 - i,
    {
        proof {
            assert(ts.take(i + 1).drop_last() =~= ts.take(i as int));
            assert(ts.take(i + 1).last() == ts[i as int]);
        }
        match parse_card_chars(&toks[i]) {
            Err(e) => {
                proof {
                    assert(toks@[i as int]@ == ts[i as int]);
                    assert(cards_of_tokens(ts.take(i + 1)) == Err::<Seq<Card>, ParseError>(e));
                    lemma_error_stays(ts, i as int + 1);
                }
                return Err(e);
            },
            Ok(c) => {
                assert(toks@[i as int]@ == ts[i as int]);
                cards.push(c);
            },
        }
        i = i + 1;
    }
    assert(ts.take(5) =~= ts);
    let text = hand.to_owned();
    Ok(build_from_vec(cards, text))
}

proof fn lemma_error_stays(ts: Seq<Seq<char>>, i: int)
    requires
        0 <= i <= ts.len(),
        cards_of_tokens(ts.take(i)) is Err,
    ensures
        cards_of_tokens(ts) == cards_of_tokens(ts.take(i)),
    decreases ts.len() - i,
{
    if i < ts.len() {
        assert(ts.take(i + 1).drop_last() =~= ts.take(i));
        lemma_error_stays(ts, i + 1);
    } else {
        assert(ts.take(i) =~= ts);
    }
}

} // verus!
