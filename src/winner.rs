use vstd::prelude::*;
use crate::card::ParseError;
use crate::hand::{
    compare_scores, hand_key, key_of, lex_cmp, lex_from, lemma_lex_flip, lemma_lex_reflexive,
    lemma_lex_trans, sort_by_rank_spec,
};
use crate::text::{cards_of_text, parse};
use std::cmp::Ordering;

verus! {

/// The comparison keys of a list of hand texts, or the error of the leftmost
/// text that is no hand.
pub open spec fn keys_of_texts(ts: Seq<&str>) -> Result<Seq<Seq<usize>>, ParseError>
    decreases ts.len(),
{
    if ts.len() == 0 {
        Ok(Seq::empty())
    } else {
        match keys_of_texts(ts.drop_last()) {
            Err(e) => Err(e),
            Ok(ks) => match cards_of_text(ts.last()@) {
                Err(e) => Err(e),
                Ok(cs) => Ok(ks.push(key_of(sort_by_rank_spec(cs)))),
            },
        }
    }
}

/// The greatest of a list of keys in lexicographic order (empty for no keys).
pub open spec fn best_key(ks: Seq<Seq<usize>>) -> Seq<usize>
    decreases ks.len(),
{
    if ks.len() == 0 {
        Seq::empty()
    } else if ks.len() == 1 {
        ks[0]
    } else {
        let m = best_key(ks.drop_last());
        if lex_cmp(ks.last(), m) == Ordering::Greater {
            ks.last()
        } else {
            m
        }
    }
}

/// The texts, in their order, whose key equals `best`.
pub open spec fn with_key(ts: Seq<&str>, ks: Seq<Seq<usize>>, best: Seq<usize>) -> Seq<&str>
    decreases ts.len(),
{
    if ts.len() == 0 || ks.len() == 0 {
        Seq::empty()
    } else {
        let w = with_key(ts.drop_last(), ks.drop_last(), best);
        if ks.last() == best {
            w.push(ts.last())
        } else {
            w
        }
    }
}

/// The winning hands among hand texts: all hands whose key equals the best key.
pub open spec fn winners(ts: Seq<&str>, ks: Seq<Seq<usize>>) -> Seq<&str> {
    with_key(ts, ks, best_key(ks))
}

/// Two sequences compare equal exactly when they are equal.
pub proof fn lemma_lex_equal(a: Seq<usize>, b: Seq<usize>, i: nat)
    requires
        i <= a.len(),
        i <= b.len(),
        a.take(i as int) == b.take(i as int),
    ensures
        (lex_from(a, b, i) == Ordering::Equal) == (a == b),
    decreases a.len() - i,
{
    if i < a.len() && i < b.len() && a[i as int] == b[i as int] {
        assert(a.take(i as int + 1) =~= a.take(i as int).push(a[i as int]));
        assert(b.take(i as int + 1) =~= b.take(i as int).push(b[i as int]));
        lemma_lex_equal(a, b, i + 1);
    } else if i == a.len() && i == b.len() {
        assert(a =~= a.take(i as int));
        assert(b =~= b.take(i as int));
    } else if i < a.len() && i < b.len() {
        assert(a[i as int] != b[i as int]);
    } else if i < a.len() {
        assert(a.len() != b.len());
    } else {
        assert(a.len() != b.len());
    }
}

proof fn lemma_keys_error_stays(ts: Seq<&str>, i: int)
    requires
        0 <= i <= ts.len(),
        keys_of_texts(ts.take(i)) is Err,
    ensures
        keys_of_texts(ts) == keys_of_texts(ts.take(i)),
    decreases ts.len() - i,
{
    if i < ts.len() {
        assert(ts.take(i + 1).drop_last() =~= ts.take(i));
        lemma_keys_error_stays(ts, i + 1);
    } else {
        assert(ts.take(i) =~= ts);
    }
}

/// The texts of the winning hands, in input order: every hand whose category and
/// tie-break score together equal the best found. No hands give no winners; a
/// text that is no hand gives the error of the leftmost such text.
pub fn winning_hands<'a>(hands: &[&'a str]) -> (r: Result<Vec<&'a str>, ParseError>)
    ensures
        match keys_of_texts(hands@) {
            Err(e) => r == Err::<Vec<&'a str>, ParseError>(e),
            Ok(ks) => r is Ok && r->Ok_0@ == winners(hands@, ks),
        },
{
    let n = hands.len();
    let mut keys: Vec<Vec<usize>> = Vec::new();
    let ghost mut ks: Seq<Seq<usize>> = Seq::empty();
    let mut i: usize = 0;
    while i < n
        invariant
            n == hands@.len(),
            i <= n,
            keys@.len() == i,
            ks.len() == i,
            forall|k: int| 0 <= k < i ==> (#[trigger] keys@[k])@ == ks[k],
            keys_of_texts(hands@.take(i as int)) == Ok::<Seq<Seq<usize>>, ParseError>(ks),
        decreases n - i,
    {
        proof {
            assert(hands@.take(i + 1).drop_last() =~= hands@.take(i as int));
            assert(hands@.take(i + 1).last() == hands@[i as int]);
        }
        match parse(hands[i]) {
            Err(e) => {
                proof {
                    assert(keys_of_texts(hands@.take(i + 1)) == Err::<Seq<Seq<usize>>, ParseError>(e));
                    lemma_keys_error_stays(hands@, i + 1);
                }
                return Err(e);
            },
            Ok(h) => {
                let key = hand_key(&h);
                proof {
                    ks = ks.push(key@);
                }
                keys.push(key);
            },
        }
        i = i + 1;
    }
    proof {
        assert(hands@.take(n as int) =~= hands@);
    }
    let mut out: Vec<&'a str> = Vec::new();
    if n == 0 {
        assert(out@ =~= winners(hands@, ks));
        return Ok(out);
    }
    let mut best: usize = 0;
    let mut j: usize = 1;
    while j < n
        invariant
            n == hands@.len(),
            n == keys@.len(),
            n == ks.len(),
            1 <= j <= n,
            best < n,
            forall|k: int| 0 <= k < n ==> (#[trigger] keys@[k])@ == ks[k],
            ks[best as int] == best_key(ks.take(j as int)),
        decreases n - j,
    {
        proof {
            assert(ks.take(j + 1).drop_last() =~= ks.take(j as int));
            assert(ks.take(j + 1).last() == ks[j as int]);
        }
        if matches!(compare_scores(&keys[j], &keys[best]), Ordering::Greater) {
            best = j;
        }
        j = j + 1;
    }
    proof {
        assert(ks.take(n as int) =~= ks);
    }
    let mut i: usize = 0;
    while i < n
        invariant
            n == hands@.len(),
            n == keys@.len(),
            n == ks.len(),
            i <= n,
            best < n,
            forall|k: int| 0 <= k < n ==> (#[trigger] keys@[k])@ == ks[k],
            ks[best as int] == best_key(ks),
            out@ == with_key(hands@.take(i as int), ks.take(i as int), best_key(ks)),
        decreases n - i,
    {
        proof {
            assert(hands@.take(i + 1).drop_last() =~= hands@.take(i as int));
            assert(ks.take(i + 1).drop_last() =~= ks.take(i as int));
            assert(ks.take(i + 1).last() == ks[i as int]);
            assert(hands@.take(i + 1).last() == hands@[i as int]);
            assert(keys@[i as int]@.take(0) =~= keys@[best as int]@.take(0));
            lemma_lex_equal(keys@[i as int]@, keys@[best as int]@, 0);
        }
        if matches!(compare_scores(&keys[i], &keys[best]), Ordering::Equal) {
            out.push(hands[i]);
        }
        i = i + 1;
    }
    proof {
        assert(hands@.take(n as int) =~= hands@);
    }
    Ok(out)
}

/// The best key is one of the keys, and no key is greater than it.
pub proof fn lemma_best_key(ks: Seq<Seq<usize>>)
    requires
        ks.len() > 0,
    ensures
        exists|k: int| 0 <= k < ks.len() && #[trigger] ks[k] == best_key(ks),
        forall|j: int| 0 <= j < ks.len() ==> lex_cmp(#[trigger] ks[j], best_key(ks)) != Ordering::Greater,
    decreases ks.len(),
{
    if ks.len() == 1 {
        lemma_lex_reflexive(ks[0], 0);
        assert(ks[0] == best_key(ks));
    } else {
        let p = ks.drop_last();
        lemma_best_key(p);
        let m = best_key(p);
        let l = ks.last();
        let k0 = choose|k: int| 0 <= k < p.len() && #[trigger] p[k] == m;
        lemma_lex_flip(l, m, 0);
        lemma_lex_reflexive(l, 0);
        if lex_cmp(l, m) == Ordering::Greater {
            assert(ks[ks.len() - 1] == best_key(ks));
            assert forall|j: int| 0 <= j < ks.len() implies lex_cmp(#[trigger] ks[j], best_key(ks))
                != Ordering::Greater by {
                if j < p.len() {
                    assert(ks[j] == p[j]);
                    lemma_lex_trans(ks[j], m, l, 0);
                }
            }
        } else {
            assert(ks[k0] == best_key(ks));
            assert forall|j: int| 0 <= j < ks.len() implies lex_cmp(#[trigger] ks[j], best_key(ks))
                != Ordering::Greater by {
                if j < p.len() {
                    assert(ks[j] == p[j]);
                }
            }
        }
    }
}

/// A hand is among the winners exactly when its key is at least the key of
/// every hand in the list: its category and tie-break score are the best found.
pub proof fn lemma_winners_are_best(ks: Seq<Seq<usize>>, i: int)
    requires
        0 <= i < ks.len(),
    ensures
        (ks[i] == best_key(ks)) == (forall|j: int|
            0 <= j < ks.len() ==> lex_cmp(#[trigger] ks[j], ks[i]) != Ordering::Greater),
{
    lemma_best_key(ks);
    let b = best_key(ks);
    if forall|j: int| 0 <= j < ks.len() ==> lex_cmp(#[trigger] ks[j], ks[i]) != Ordering::Greater {
        let k = choose|k: int| 0 <= k < ks.len() && #[trigger] ks[k] == b;
        assert(lex_cmp(ks[k], ks[i]) != Ordering::Greater);
        assert(lex_cmp(ks[i], b) != Ordering::Greater);
        lemma_lex_flip(ks[i], b, 0);
        assert(ks[i].take(0) =~= b.take(0));
        lemma_lex_equal(ks[i], b, 0);
    }
}

} // verus!
