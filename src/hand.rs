use vstd::prelude::*;
use crate::card::{Card, valid_rank};
use std::cmp::Ordering;

verus! {

broadcast use vstd::seq_lib::group_to_multiset_ensures;

/// The ranks of a sequence of cards, in the same order.
pub open spec fn ranks_of(s: Seq<Card>) -> Seq<usize> {
    s.map_values(|c: Card| c.rank)
}

pub open spec fn sorted_by_rank(s: Seq<Card>) -> bool {
    forall|i: int, j: int| 0 <= i < j < s.len() ==> s[i].rank <= s[j].rank
}

/// Five ranks that climb by exactly one at each step.
pub open spec fn is_run(s: Seq<usize>) -> bool {
    &&& s.len() == 5
    &&& forall|i: int| 0 < i < 5 ==> #[trigger] s[i] == s[i - 1] + 1
}

pub open spec fn same_suit(s: Seq<Card>) -> bool {
    forall|i: int| 0 <= i < s.len() ==> #[trigger] s[i].suit == s[0].suit
}

/// The rank histogram of a rank-sorted sequence: each rank with the number of
/// times it occurs, ranks ascending.
pub open spec fn runs(s: Seq<usize>) -> Seq<(usize, usize)>
    decreases s.len(),
{
    if s.len() == 0 {
        Seq::empty()
    } else {
        let g = runs(s.drop_last());
        if g.len() > 0 && g.last().0 == s.last() {
            g.update(g.len() - 1, (s.last(), (g.last().1 + 1) as usize))
        } else {
            g.push((s.last(), 1usize))
        }
    }
}

/// The sum of the counts of a histogram.
pub open spec fn total(g: Seq<(usize, usize)>) -> int
    decreases g.len(),
{
    if g.len() == 0 {
        0
    } else {
        total(g.drop_last()) + g.last().1
    }
}

proof fn lemma_total_update(g: Seq<(usize, usize)>, k: int, v: (usize, usize))
    requires
        0 <= k < g.len(),
    ensures
        total(g.update(k, v)) == total(g) - g[k].1 + v.1,
    decreases g.len(),
{
    if k == g.len() - 1 {
        assert(g.update(k, v).drop_last() =~= g.drop_last());
    } else {
        lemma_total_update(g.drop_last(), k, v);
        assert(g.update(k, v).drop_last() =~= g.drop_last().update(k, v));
    }
}

/// A histogram of a sorted sequence has strictly ascending ranks drawn from it,
/// positive counts that add up to its length, and ends at its last element.
pub proof fn lemma_runs(s: Seq<usize>)
    requires
        s.len() <= usize::MAX,
        forall|i: int, j: int| 0 <= i < j < s.len() ==> s[i] <= s[j],
    ensures
        total(runs(s)) == s.len(),
        runs(s).len() <= s.len(),
        s.len() > 0 ==> runs(s).len() > 0 && runs(s).last().0 == s.last(),
        forall|k: int| 0 <= k < runs(s).len() ==> 1 <= #[trigger] runs(s)[k].1 <= s.len(),
        forall|k: int, l: int| 0 <= k < l < runs(s).len() ==> runs(s)[k].0 < runs(s)[l].0,
    decreases s.len(),
{
    if s.len() > 0 {
        let p = s.drop_last();
        lemma_runs(p);
        let g = runs(p);
        if g.len() > 0 && g.last().0 == s.last() {
            let v = (s.last(), (g.last().1 + 1) as usize);
            assert(g.last().1 + 1 <= s.len());
            lemma_total_update(g, g.len() - 1, v);
            assert forall|k: int| 0 <= k < runs(s).len() implies 1 <= #[trigger] runs(s)[k].1 <= s.len() by {
                if k < g.len() - 1 {
                    assert(runs(s)[k] == g[k]);
                }
            }
        } else {
            assert(g.push((s.last(), 1usize)).drop_last() =~= g);
            if g.len() > 0 {
                assert(g.last().0 <= s.last());
            }
        }
    }
}

/// Ranks that climb strictly have a histogram with one entry per card.
pub proof fn lemma_runs_strict(s: Seq<usize>)
    requires
        s.len() <= usize::MAX,
        forall|i: int, j: int| 0 <= i < j < s.len() ==> s[i] < s[j],
    ensures
        runs(s).len() == s.len(),
    decreases s.len(),
{
    if s.len() > 0 {
        lemma_runs_strict(s.drop_last());
        lemma_runs(s.drop_last());
        if s.len() > 1 {
            assert(s[s.len() - 2] < s.last());
        }
    }
}

/// Tells whether five sorted ranks form an unbroken run: the highest is four above
/// the lowest and each neighbouring pair differs by exactly one.
pub fn consecutive(ranks: Vec<usize>) -> (r: bool)
    ensures
        r == is_run(ranks@),
{
    if ranks.len() != 5 {
        return false;
    }
    if ranks[4] < ranks[0] || ranks[4] - ranks[0] != 4 {
        assert(!is_run(ranks@)) by {
            if is_run(ranks@) {
                assert(ranks@[1] == ranks@[0] + 1);
                assert(ranks@[2] == ranks@[1] + 1);
                assert(ranks@[3] == ranks@[2] + 1);
                assert(ranks@[4] == ranks@[3] + 1);
            }
        }
        return false;
    }
    let mut i: usize = 1;
    while i < 5
        invariant
            ranks@.len() == 5,
            1 <= i <= 5,
            forall|k: int| 0 < k < i ==> #[trigger] ranks@[k] == ranks@[k - 1] + 1,
        decreases 5 - i,
    {
        if ranks[i - 1] >= usize::MAX || ranks[i] != ranks[i - 1] + 1 {
            assert(!(ranks@[i as int] == ranks@[i - 1] + 1));
            return false;
        }
        i = i + 1;
    }
    true
}

/// A hand of five cards, sorted ascending by rank, with the features that
/// classification and scoring read, computed once when the hand is built.
pub struct Hand {
    pub cards: Vec<Card>,
    pub consecutive: bool,
    pub uniform_suit: bool,
    /// Each rank that occurs, ascending, with the number of cards that hold it.
    pub histogram: Vec<(usize, usize)>,
    /// The text the hand was read from, kept to report winners as given.
    pub original_text: String,
}

impl Hand {
    pub open spec fn ranks(&self) -> Seq<usize> {
        ranks_of(self.cards@)
    }

    pub open spec fn wf(&self) -> bool {
        &&& self.cards@.len() == 5
        &&& sorted_by_rank(self.cards@)
        &&& forall|i: int| 0 <= i < 5 ==> valid_rank(#[trigger] self.cards@[i].rank as nat)
        &&& self.consecutive == is_run(self.ranks())
        &&& self.uniform_suit == same_suit(self.cards@)
        &&& self.histogram@ == runs(self.ranks())
    }
}

/// Inserts a card into a rank-sorted sequence, after every card of lower or equal rank.
pub open spec fn insert_by_rank(s: Seq<Card>, c: Card) -> Seq<Card>
    decreases s.len(),
{
    if s.len() == 0 {
        seq![c]
    } else if s[0].rank > c.rank {
        seq![c] + s
    } else {
        seq![s[0]] + insert_by_rank(s.drop_first(), c)
    }
}

/// The cards sorted ascending by rank; cards of equal rank keep their order.
pub open spec fn sort_by_rank_spec(s: Seq<Card>) -> Seq<Card>
    decreases s.len(),
{
    if s.len() == 0 {
        s
    } else {
        insert_by_rank(sort_by_rank_spec(s.drop_last()), s.last())
    }
}

proof fn lemma_insert_at(s: Seq<Card>, c: Card, p: int)
    requires
        0 <= p <= s.len(),
        forall|k: int| 0 <= k < p ==> #[trigger] s[k].rank <= c.rank,
        p < s.len() ==> s[p].rank > c.rank,
    ensures
        insert_by_rank(s, c) == s.insert(p, c),
    decreases s.len(),
{
    if s.len() > 0 {
        if p == 0 {
            assert(seq![c] + s =~= s.insert(0, c));
        } else {
            lemma_insert_at(s.drop_first(), c, p - 1);
            assert(seq![s[0]] + s.drop_first().insert(p - 1, c) =~= s.insert(p, c));
        }
    } else {
        assert(seq![c] =~= s.insert(0, c));
    }
}

/// Sorts cards ascending by rank; cards of equal rank keep their order.
fn sort_by_rank(cards: &Vec<Card>) -> (r: Vec<Card>)
    ensures
        r@ == sort_by_rank_spec(cards@),
        sorted_by_rank(r@),
        r@.to_multiset() == cards@.to_multiset(),
        r@.len() == cards@.len(),
{
    let mut out: Vec<Card> = Vec::new();
    let mut i: usize = 0;
    while i < cards.len()
        invariant
            i <= cards@.len(),
            sorted_by_rank(out@),
            out@ == sort_by_rank_spec(cards@.take(i as int)),
            out@.to_multiset() == cards@.take(i as int).to_multiset(),
            out@.len() == i,
        decreases cards@.len() - i,
    {
        let c = cards[i];
        let mut p: usize = 0;
        while p < out.len() && out[p].rank <= c.rank
            invariant
                p <= out@.len(),
                forall|k: int| 0 <= k < p ==> #[trigger] out@[k].rank <= c.rank,
            decreases out@.len() - p,
        {
            p = p + 1;
        }
        proof {
            assert(cards@.take(i + 1) =~= cards@.take(i as int).push(c));
            assert(cards@.take(i + 1).drop_last() =~= cards@.take(i as int));
            vstd::seq_lib::to_multiset_insert(out@, p as int, c);
            lemma_insert_at(out@, c, p as int);
        }
        out.insert(p, c);
        i = i + 1;
    }
    assert(cards@.take(cards@.len() as int) =~= cards@);
    out
}

fn ranks_vec(cards: &Vec<Card>) -> (r: Vec<usize>)
    ensures
        r@ == ranks_of(cards@),
{
    let mut v: Vec<usize> = Vec::new();
    let mut i: usize = 0;
    while i < cards.len()
        invariant
            i <= cards@.len(),
            v@.len() == i,
            forall|k: int| 0 <= k < i ==> #[trigger] v@[k] == cards@[k].rank,
        decreases cards@.len() - i,
    {
        v.push(cards[i].rank);
        i = i + 1;
    }
    assert(v@ =~= ranks_of(cards@));
    v
}

fn histogram_of(ranks: &Vec<usize>) -> (r: Vec<(usize, usize)>)
    requires
        forall|i: int, j: int| 0 <= i < j < ranks@.len() ==> ranks@[i] <= ranks@[j],
    ensures
        r@ == runs(ranks@),
{
    let mut g: Vec<(usize, usize)> = Vec::new();
    let mut i: usize = 0;
    while i < ranks.len()
        invariant
            i <= ranks@.len(),
            forall|a: int, b: int| 0 <= a < b < ranks@.len() ==> ranks@[a] <= ranks@[b],
            g@ == runs(ranks@.take(i as int)),
        decreases ranks@.len() - i,
    {
        let x = ranks[i];
        proof {
            lemma_runs(ranks@.take(i as int));
            assert(ranks@.take(i + 1).drop_last() =~= ranks@.take(i as int));
            assert(ranks@.take(i + 1).last() == x);
        }
        let n = g.len();
        if n > 0 && g[n - 1].0 == x {
            let c = g[n - 1].1;
            g.set(n - 1, (x, c + 1));
        } else {
            g.push((x, 1));
        }
        i = i + 1;
    }
    assert(ranks@.take(ranks@.len() as int) =~= ranks@);
    g
}

fn all_same_suit(cards: &Vec<Card>) -> (r: bool)
    ensures
        r == same_suit(cards@),
{
    let mut i: usize = 0;
    while i < cards.len()
        invariant
            i <= cards@.len(),
            forall|k: int| 0 <= k < i ==> #[trigger] cards@[k].suit == cards@[0].suit,
        decreases cards@.len() - i,
    {
        if cards[i].suit != cards[0].suit {
            return false;
        }
        i = i + 1;
    }
    true
}

/// Builds a hand from five cards: sorts them by rank and computes the run flag,
/// the uniform-suit flag and the rank histogram.
pub fn build_hand(cards: [Card; 5], original_text: String) -> (h: Hand)
    requires
        forall|i: int| 0 <= i < 5 ==> valid_rank(#[trigger] cards@[i].rank as nat),
    ensures
        h.wf(),
        h.cards@ == sort_by_rank_spec(cards@),
        h.cards@.to_multiset() == cards@.to_multiset(),
        h.original_text@ == original_text@,
{
    let mut v: Vec<Card> = Vec::new();
    let mut i: usize = 0;
    while i < 5
        invariant
            i <= 5,
            v@ == cards@.take(i as int),
        decreases 5 - i,
    {
        v.push(cards[i]);
        i = i + 1;
    }
    assert(v@ =~= cards@);
    build_from_vec(v, original_text)
}

pub(crate) fn build_from_vec(v: Vec<Card>, original_text: String) -> (h: Hand)
    requires
        v@.len() == 5,
        forall|i: int| 0 <= i < 5 ==> valid_rank(#[trigger] v@[i].rank as nat),
    ensures
        h.wf(),
        h.cards@ == sort_by_rank_spec(v@),
        h.cards@.to_multiset() == v@.to_multiset(),
        h.original_text@ == original_text@,
{
    let sorted = sort_by_rank(&v);
    proof {
        assert forall|i: int| 0 <= i < 5 implies valid_rank(#[trigger] sorted@[i].rank as nat) by {
            assert(sorted@.to_multiset().count(sorted@[i]) > 0);
            assert(v@.contains(sorted@[i]));
        }
    }
    let ranks = ranks_vec(&sorted);
    let histogram = histogram_of(&ranks);
    let run = consecutive(ranks);
    let uniform_suit = all_same_suit(&sorted);
    Hand { cards: sorted, consecutive: run, uniform_suit, histogram, original_text }
}

/// The ten hand categories, lowest first.
#[derive(Clone, Copy, Debug, PartialEq, Eq, Structural)]
pub enum Category {
    HighCard,
    OnePair,
    TwoPair,
    ThreeOfAKind,
    Straight,
    Flush,
    FullHouse,
    FourOfAKind,
    StraightFlush,
    RoyalFlush,
}

/// The place of a category in the ranking: 0 for a high card up to 9 for a royal flush.
pub open spec fn category_rank(c: Category) -> nat {
    match c {
        Category::HighCard => 0,
        Category::OnePair => 1,
        Category::TwoPair => 2,
        Category::ThreeOfAKind => 3,
        Category::Straight => 4,
        Category::Flush => 5,
        Category::FullHouse => 6,
        Category::FourOfAKind => 7,
        Category::StraightFlush => 8,
        Category::RoyalFlush => 9,
    }
}

impl Category {
    /// The category's place in the ranking (0 = high card .. 9 = royal flush).
    pub fn ordinal(self) -> (r: usize)
        ensures
            r == category_rank(self),
    {
        match self {
            Category::HighCard => 0,
            Category::OnePair => 1,
            Category::TwoPair => 2,
            Category::ThreeOfAKind => 3,
            Category::Straight => 4,
            Category::Flush => 5,
            Category::FullHouse => 6,
            Category::FourOfAKind => 7,
            Category::StraightFlush => 8,
            Category::RoyalFlush => 9,
        }
    }
}

/// The largest count in a histogram (0 when it is empty).
pub open spec fn max_count(g: Seq<(usize, usize)>) -> usize
    decreases g.len(),
{
    if g.len() == 0 {
        0
    } else {
        let m = max_count(g.drop_last());
        if g.last().1 > m {
            g.last().1
        } else {
            m
        }
    }
}

/// The category of a hand given its run flag, uniform-suit flag, lowest rank and
/// histogram; the first rule that applies decides.
pub open spec fn category_from(run: bool, uniform: bool, low: usize, g: Seq<(usize, usize)>) -> Category {
    if run && uniform && low == 10 {
        Category::RoyalFlush
    } else if run && uniform {
        Category::StraightFlush
    } else if g.len() == 2 && max_count(g) == 4 {
        Category::FourOfAKind
    } else if g.len() == 2 && max_count(g) == 3 {
        Category::FullHouse
    } else if uniform {
        Category::Flush
    } else if run {
        Category::Straight
    } else if max_count(g) == 3 {
        Category::ThreeOfAKind
    } else if g.len() == 3 && max_count(g) == 2 {
        Category::TwoPair
    } else if g.len() == 4 && max_count(g) == 2 {
        Category::OnePair
    } else {
        Category::HighCard
    }
}

/// The category of five rank-sorted cards.
pub open spec fn category_of(cards: Seq<Card>) -> Category {
    category_from(
        is_run(ranks_of(cards)),
        same_suit(cards),
        cards[0].rank,
        runs(ranks_of(cards)),
    )
}

fn largest_count(g: &Vec<(usize, usize)>) -> (r: usize)
    ensures
        r == max_count(g@),
{
    let mut m: usize = 0;
    let mut i: usize = 0;
    while i < g.len()
        invariant
            i <= g@.len(),
            m == max_count(g@.take(i as int)),
        decreases g@.len() - i,
    {
        assert(g@.take(i + 1).drop_last() =~= g@.take(i as int));
        if g[i].1 > m {
            m = g[i].1;
        }
        i = i + 1;
    }
    assert(g@.take(g@.len() as int) =~= g@);
    m
}

/// The category of a hand.
pub fn classify(hand: &Hand) -> (r: Category)
    requires
        hand.wf(),
    ensures
        r == category_of(hand.cards@),
{
    let distinct = hand.histogram.len();
    let top = largest_count(&hand.histogram);
    let run = hand.consecutive;
    let uniform = hand.uniform_suit;
    if run && uniform && hand.cards[0].rank == 10 {
        Category::RoyalFlush
    } else if run && uniform {
        Category::StraightFlush
    } else if distinct == 2 && top == 4 {
        Category::FourOfAKind
    } else if distinct == 2 && top == 3 {
        Category::FullHouse
    } else if uniform {
        Category::Flush
    } else if run {
        Category::Straight
    } else if top == 3 {
        Category::ThreeOfAKind
    } else if distinct == 3 && top == 2 {
        Category::TwoPair
    } else if distinct == 4 && top == 2 {
        Category::OnePair
    } else {
        Category::HighCard
    }
}

/// The ranks of a histogram that occur exactly `c` times, highest rank first.
pub open spec fn ranks_with_count(g: Seq<(usize, usize)>, c: usize) -> Seq<usize>
    decreases g.len(),
{
    if g.len() == 0 {
        Seq::empty()
    } else {
        ranks_with_count(g.drop_first(), c) + if g[0].1 == c {
            seq![g[0].0]
        } else {
            Seq::empty()
        }
    }
}

/// The ranks of a histogram ordered by descending count, and within one count by
/// descending rank.
pub open spec fn freq_ranks(g: Seq<(usize, usize)>) -> Seq<usize> {
    ranks_with_count(g, 5) + ranks_with_count(g, 4) + ranks_with_count(g, 3)
        + ranks_with_count(g, 2) + ranks_with_count(g, 1)
}

/// The first five entries of a sequence, filled up with 1 where it is shorter.
pub open spec fn padded(v: Seq<usize>) -> Seq<usize> {
    (v + seq![1usize, 1usize, 1usize, 1usize, 1usize]).take(5)
}

/// The tie-break score of five rank-sorted cards: the frequency-ordered ranks
/// padded to five entries, then the highest rank.
pub open spec fn score_of(cards: Seq<Card>) -> Seq<usize> {
    padded(freq_ranks(runs(ranks_of(cards)))).push(cards.last().rank)
}

/// What hands are compared by: the category's rank, then the tie-break score.
pub open spec fn key_of(cards: Seq<Card>) -> Seq<usize> {
    seq![category_rank(category_of(cards)) as usize] + score_of(cards)
}

/// Lexicographic comparison of two sequences from position `i` on; a proper
/// prefix comes first.
pub open spec fn lex_from(a: Seq<usize>, b: Seq<usize>, i: nat) -> Ordering
    decreases a.len() - i,
{
    if i >= a.len() && i >= b.len() {
        Ordering::Equal
    } else if i >= a.len() {
        Ordering::Less
    } else if i >= b.len() {
        Ordering::Greater
    } else if a[i as int] < b[i as int] {
        Ordering::Less
    } else if a[i as int] > b[i as int] {
        Ordering::Greater
    } else {
        lex_from(a, b, i + 1)
    }
}

pub open spec fn lex_cmp(a: Seq<usize>, b: Seq<usize>) -> Ordering {
    lex_from(a, b, 0)
}

/// The first five entries of `vec`, filled up with 1 where it has fewer.
pub fn pad_vec(vec: Vec<usize>) -> (r: Vec<usize>)
    ensures
        r@ == padded(vec@),
{
    let mut out: Vec<usize> = Vec::new();
    let mut i: usize = 0;
    while i < 5
        invariant
            i <= 5,
            out@ == padded(vec@).take(i as int),
        decreases 5 - i,
    {
        if i < vec.len() {
            out.push(vec[i]);
        } else {
            out.push(1);
        }
        assert(out@ =~= padded(vec@).take(i + 1));
        i = i + 1;
    }
    assert(out@ =~= padded(vec@));
    out
}

fn push_ranks_with_count(g: &Vec<(usize, usize)>, c: usize, out: &mut Vec<usize>)
    ensures
        final(out)@ == old(out)@ + ranks_with_count(g@, c),
{
    let n = g.len();
    let mut j: usize = n;
    while j > 0
        invariant
            n == g@.len(),
            j <= n,
            out@ == old(out)@ + ranks_with_count(g@.subrange(j as int, n as int), c),
        decreases j,
    {
        proof {
            assert(g@.subrange(j - 1, n as int).drop_first() =~= g@.subrange(j as int, n as int));
        }
        if g[j - 1].1 == c {
            out.push(g[j - 1].0);
        }
        proof {
            let t = g@.subrange(j - 1, n as int);
            assert(t[0] == g@[j - 1]);
        }
        assert(out@ =~= old(out)@ + ranks_with_count(g@.subrange(j - 1, n as int), c));
        j = j - 1;
    }
    assert(g@.subrange(0, n as int) =~= g@);
}

/// The tie-break score of a hand: its ranks by descending count (and descending
/// rank within a count), padded to five entries with 1, then its highest rank.
pub fn hand_score(hand: &Hand) -> (r: Vec<usize>)
    requires
        hand.wf(),
    ensures
        r@ == score_of(hand.cards@),
{
    let mut freq: Vec<usize> = Vec::new();
    push_ranks_with_count(&hand.histogram, 5, &mut freq);
    push_ranks_with_count(&hand.histogram, 4, &mut freq);
    push_ranks_with_count(&hand.histogram, 3, &mut freq);
    push_ranks_with_count(&hand.histogram, 2, &mut freq);
    push_ranks_with_count(&hand.histogram, 1, &mut freq);
    assert(freq@ =~= freq_ranks(hand.histogram@));
    let mut score = pad_vec(freq);
    score.push(hand.cards[4].rank);
    score
}

/// Lexicographic comparison of two score vectors.
pub fn compare_scores(a: &Vec<usize>, b: &Vec<usize>) -> (r: Ordering)
    ensures
        r == lex_cmp(a@, b@),
{
    let mut i: usize = 0;
    while i < a.len() && i < b.len() && a[i] == b[i]
        invariant
            i <= a@.len(),
            i <= b@.len(),
            lex_from(a@, b@, 0) == lex_from(a@, b@, i as nat),
        decreases a@.len() - i,
    {
        i = i + 1;
    }
    if i >= a.len() && i >= b.len() {
        Ordering::Equal
    } else if i >= a.len() {
        Ordering::Less
    } else if i >= b.len() {
        Ordering::Greater
    } else if a[i] < b[i] {
        Ordering::Less
    } else {
        Ordering::Greater
    }
}

/// The comparison key of a hand: its category's rank followed by its tie-break score.
pub fn hand_key(hand: &Hand) -> (r: Vec<usize>)
    requires
        hand.wf(),
    ensures
        r@ == key_of(hand.cards@),
{
    let mut key: Vec<usize> = Vec::new();
    key.push(classify(hand).ordinal());
    let mut score = hand_score(hand);
    key.append(&mut score);
    assert(key@ =~= key_of(hand.cards@));
    key
}

/// Orders two hands: by category first, then by tie-break score.
pub fn compare(hand_a: &Hand, hand_b: &Hand) -> (r: Ordering)
    requires
        hand_a.wf(),
        hand_b.wf(),
    ensures
        r == lex_cmp(key_of(hand_a.cards@), key_of(hand_b.cards@)),
{
    let ka = hand_key(hand_a);
    let kb = hand_key(hand_b);
    compare_scores(&ka, &kb)
}

/// Distinct categories have distinct places in the ranking, so the ranking is a
/// strict total order on categories.
pub proof fn lemma_category_rank_injective(a: Category, b: Category)
    ensures
        a != b ==> category_rank(a) != category_rank(b),
        category_rank(a) <= 9,
{
}

/// A sequence compares equal to itself.
pub proof fn lemma_lex_reflexive(a: Seq<usize>, i: nat)
    requires
        i <= a.len(),
    ensures
        lex_from(a, a, i) == Ordering::Equal,
    decreases a.len() - i,
{
    if i < a.len() {
        lemma_lex_reflexive(a, i + 1);
    }
}

/// Swapping the arguments swaps `Greater` and `Less`.
pub proof fn lemma_lex_flip(a: Seq<usize>, b: Seq<usize>, i: nat)
    ensures
        (lex_from(a, b, i) == Ordering::Greater) == (lex_from(b, a, i) == Ordering::Less),
        (lex_from(a, b, i) == Ordering::Less) == (lex_from(b, a, i) == Ordering::Greater),
    decreases a.len() - i,
{
    if i < a.len() && i < b.len() && a[i as int] == b[i as int] {
        lemma_lex_flip(a, b, i + 1);
    }
}

/// "Not greater than" is transitive.
pub proof fn lemma_lex_trans(a: Seq<usize>, b: Seq<usize>, c: Seq<usize>, i: nat)
    requires
        lex_from(a, b, i) != Ordering::Greater,
        lex_from(b, c, i) != Ordering::Greater,
    ensures
        lex_from(a, c, i) != Ordering::Greater,
    decreases a.len() - i,
{
    if i < a.len() && i < b.len() && i < c.len() && a[i as int] == b[i as int] && b[i as int]
        == c[i as int] {
        lemma_lex_trans(a, b, c, i + 1);
    }
}

/// Classification and comparison depend on the cards alone: two hands that hold
/// the same cards have the same category and compare equal.
pub proof fn lemma_same_cards_same_result(a: Hand, b: Hand)
    requires
        a.wf(),
        b.wf(),
        a.cards@ == b.cards@,
    ensures
        category_of(a.cards@) == category_of(b.cards@),
        lex_cmp(key_of(a.cards@), key_of(b.cards@)) == Ordering::Equal,
{
    lemma_lex_reflexive(key_of(a.cards@), 0);
}

proof fn lemma_max_count_bounds(g: Seq<(usize, usize)>)
    requires
        forall|k: int| 0 <= k < g.len() ==> 1 <= #[trigger] g[k].1,
    ensures
        g.len() > 0 ==> total(g) >= max_count(g) + g.len() - 1,
        total(g) <= g.len() * max_count(g),
        forall|k: int| 0 <= k < g.len() ==> #[trigger] g[k].1 <= max_count(g),
    decreases g.len(),
{
    if g.len() > 0 {
        let p = g.drop_last();
        lemma_max_count_bounds(p);
        let m = max_count(g);
        let mp = max_count(p);
        assert(mp <= m);
        assert(total(p) <= p.len() * mp);
        assert(p.len() * mp <= p.len() * m) by (nonlinear_arith)
            requires
                mp <= m,
        ;
        assert(g.len() * m == p.len() * m + m) by (nonlinear_arith)
            requires
                g.len() == p.len() + 1,
        ;
        assert forall|k: int| 0 <= k < g.len() implies #[trigger] g[k].1 <= max_count(g) by {
            if k < p.len() {
                assert(g[k] == p[k]);
            }
        }
    }
}

/// Five cards with exactly four distinct ranks hold one pair: they are never
/// taken for three of a kind or two pair, and unless all share a suit they are
/// classified as one pair.
pub proof fn lemma_one_pair_guard(cards: Seq<Card>)
    requires
        cards.len() == 5,
        sorted_by_rank(cards),
        runs(ranks_of(cards)).len() == 4,
    ensures
        category_of(cards) != Category::ThreeOfAKind,
        category_of(cards) != Category::TwoPair,
        !same_suit(cards) ==> category_of(cards) == Category::OnePair,
        same_suit(cards) ==> category_of(cards) == Category::Flush,
{
    let rs = ranks_of(cards);
    let g = runs(rs);
    lemma_runs(rs);
    lemma_max_count_bounds(g);
    if is_run(rs) {
        assert forall|i: int, j: int| 0 <= i < j < rs.len() implies rs[i] < rs[j] by {
            assert(rs[1] == rs[0] + 1);
            assert(rs[2] == rs[1] + 1);
            assert(rs[3] == rs[2] + 1);
            assert(rs[4] == rs[3] + 1);
        }
        lemma_runs_strict(rs);
    }
    assert(max_count(g) == 2);
}

/// Five cards with two pairs and a single card are classified as two pair
/// unless all share a suit, and never as one pair.
pub proof fn lemma_two_pair_guard(cards: Seq<Card>)
    requires
        cards.len() == 5,
        sorted_by_rank(cards),
        runs(ranks_of(cards)).len() == 3,
        max_count(runs(ranks_of(cards))) == 2,
    ensures
        category_of(cards) != Category::OnePair,
        category_of(cards) != Category::ThreeOfAKind,
        !same_suit(cards) ==> category_of(cards) == Category::TwoPair,
{
    let rs = ranks_of(cards);
    if is_run(rs) {
        assert forall|i: int, j: int| 0 <= i < j < rs.len() implies rs[i] < rs[j] by {
            assert(rs[1] == rs[0] + 1);
            assert(rs[2] == rs[1] + 1);
            assert(rs[3] == rs[2] + 1);
            assert(rs[4] == rs[3] + 1);
        }
        lemma_runs_strict(rs);
    }
}

} // verus!
