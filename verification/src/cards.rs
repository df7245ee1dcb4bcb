//! A two-player card game over queues of card values.
//!
//! In the simple variant each round moves the two top cards to the round
//! winner; in the recursive variant a round whose top cards are both small
//! enough is decided by a subgame over copies of the next cards, and a
//! repeated position hands the game to the first player at once. Repeats
//! are detected, as a deliberate shortcut, by hashes of the hands.

use std::collections::hash_map::DefaultHasher;
use std::collections::HashSet;
use std::collections::VecDeque;
use std::hash::Hasher;
use vstd::prelude::*;
use vstd::std_specs::hash::DefaultHasherAdditionalSpecFns;

verus! {

/// The score of a hand: the top card weighs the hand's length, the next
/// one less, down to one for the bottom card.
pub open spec fn spec_score(s: Seq<u32>) -> int
    decreases s.len(),
{
    if s.len() == 0 {
        0
    } else {
        s.len() * s[0] + spec_score(s.drop_first())
    }
}

/// A score is never negative.
pub proof fn lemma_score_nonneg(s: Seq<u32>)
    ensures
        spec_score(s) >= 0,
    decreases s.len(),
{
    if s.len() > 0 {
        lemma_score_nonneg(s.drop_first());
        assert(s.len() * s[0] >= 0) by (nonlinear_arith)
            requires
                s.len() >= 0,
                s[0] >= 0,
        ;
    }
}

/// Every card of the hand is at most `bound`.
pub open spec fn cards_bounded(s: Seq<u32>, bound: int) -> bool {
    forall|i: int| 0 <= i < s.len() ==> #[trigger] s[i] <= bound
}

/// A hand of small cards has a small score.
pub proof fn lemma_score_bound(s: Seq<u32>, bound: int)
    requires
        cards_bounded(s, bound),
        bound >= 0,
    ensures
        spec_score(s) <= s.len() * s.len() * bound,
    decreases s.len(),
{
    if s.len() == 0 {
    } else {
        assert(cards_bounded(s.drop_first(), bound));
        lemma_score_bound(s.drop_first(), bound);
        let n = s.len() as int;
        assert(s.len() * s[0] <= n * bound) by (nonlinear_arith)
            requires
                s[0] <= bound,
                n == s.len(),
                bound >= 0,
                s.len() >= 1,
        ;
        assert(n * bound + (n - 1) * (n - 1) * bound <= n * n * bound) by (nonlinear_arith)
            requires
                n >= 1,
                bound >= 0,
        ;
    }
}

/// Scores a hand.
pub fn sum_hand(hand: &VecDeque<u32>) -> (score: u32)
    requires
        hand@.len() <= u32::MAX,
        spec_score(hand@) <= u32::MAX,
    ensures
        score == spec_score(hand@),
{
    let hand_len = hand.len();
    let mut score: u32 = 0;
    let mut index: usize = 0;
    proof {
        assert(hand@.skip(0) =~= hand@);
    }
    while index < hand_len
        invariant
            index <= hand@.len() <= u32::MAX,
            hand_len == hand@.len(),
            spec_score(hand@) <= u32::MAX,
            score + spec_score(hand@.skip(index as int)) == spec_score(hand@),
        decreases hand_len - index,
    {
        let card = hand[index];
        proof {
            assert(hand@.skip(index as int).drop_first() =~= hand@.skip(index + 1));
            assert(hand@.skip(index as int)[0] == hand@[index as int]);
            lemma_score_nonneg(hand@.skip(index as int));
            lemma_score_nonneg(hand@.skip(index + 1));
            assert(spec_score(hand@.skip(index as int)) == (hand@.len() - index) * hand@[
                index as int
            ] + spec_score(hand@.skip(index + 1)));
        }
        score = score + (hand_len - index) as u32 * card;
        index = index + 1;
    }
    proof {
        assert(hand@.skip(hand@.len() as int) =~= Seq::<u32>::empty());
    }
    score
}

/// The bytes of a hand, four per card, least significant first.
pub open spec fn hand_bytes(s: Seq<u32>) -> Seq<u8>
    decreases s.len(),
{
    if s.len() == 0 {
        Seq::empty()
    } else {
        let c = s[0] as int;
        seq![
            (c % 256) as u8,
            (c / 256 % 256) as u8,
            (c / 65536 % 256) as u8,
            (c / 16777216 % 256) as u8,
        ] + hand_bytes(s.drop_first())
    }
}

/// The hash of a hand: the standard hasher, run over the hand's bytes.
pub open spec fn spec_calculate_hash(s: Seq<u32>) -> u64 {
    DefaultHasher::spec_finish(seq![hand_bytes(s)])
}

/// Hashes a hand, so that a repeated position can be found in a set of
/// hashes instead of a list of hands.
pub fn calculate_hash(hand: &VecDeque<u32>) -> (h: u64)
    ensures
        h == spec_calculate_hash(hand@),
{
    let mut buf: Vec<u8> = Vec::new();
    let mut i: usize = 0;
    proof {
        assert(hand@.skip(0) =~= hand@);
        assert(buf@ + hand_bytes(hand@.skip(0)) =~= hand_bytes(hand@));
    }
    while i < hand.len()
        invariant
            i <= hand@.len(),
            buf@ + hand_bytes(hand@.skip(i as int)) == hand_bytes(hand@),
        decreases hand@.len() - i,
    {
        let card = hand[i];
        proof {
            assert(hand@.skip(i as int).drop_first() =~= hand@.skip(i + 1));
            assert(hand@.skip(i as int)[0] == hand@[i as int]);
        }
        let ghost before = buf@;
        buf.push((card % 256) as u8);
        buf.push((card / 256 % 256) as u8);
        buf.push((card / 65536 % 256) as u8);
        buf.push((card / 16777216 % 256) as u8);
        proof {
            let c = hand@[i as int] as int;
            assert(buf@ =~= before + seq![
                (c % 256) as u8,
                (c / 256 % 256) as u8,
                (c / 65536 % 256) as u8,
                (c / 16777216 % 256) as u8,
            ]);
            assert(buf@ + hand_bytes(hand@.skip(i + 1)) =~= before + hand_bytes(
                hand@.skip(i as int),
            ));
        }
        i = i + 1;
    }
    proof {
        assert(hand@.skip(hand@.len() as int) =~= Seq::<u32>::empty());
        assert(hand_bytes(hand@.skip(hand@.len() as int)) =~= Seq::<u8>::empty());
        assert(buf@ =~= hand_bytes(hand@));
    }
    let mut state = DefaultHasher::new();
    state.write(buf.as_slice());
    proof {
        assert(state@ =~= seq![hand_bytes(hand@)]);
    }
    state.finish()
}

/// One round of the simple game: the two top cards go to the holder of
/// the higher one, winner's card on top.
pub open spec fn spec_round(p1: Seq<u32>, p2: Seq<u32>) -> (Seq<u32>, Seq<u32>)
    recommends
        p1.len() > 0,
        p2.len() > 0,
{
    let c1 = p1[0];
    let c2 = p2[0];
    let r1 = p1.drop_first();
    let r2 = p2.drop_first();
    if c1 > c2 {
        (r1.push(c1).push(c2), r2)
    } else {
        (r1, r2.push(c2).push(c1))
    }
}

/// The hands after `n` rounds of the simple game; a finished game stays
/// as it ended.
pub open spec fn spec_rounds(p1: Seq<u32>, p2: Seq<u32>, n: nat) -> (Seq<u32>, Seq<u32>)
    decreases n,
{
    if n == 0 {
        (p1, p2)
    } else {
        let prev = spec_rounds(p1, p2, (n - 1) as nat);
        if prev.0.len() == 0 || prev.1.len() == 0 {
            prev
        } else {
            spec_round(prev.0, prev.1)
        }
    }
}

/// A finished game stays exactly as it ended.
pub proof fn lemma_rounds_stable(p1: Seq<u32>, p2: Seq<u32>, n: nat, m: nat)
    requires
        n <= m,
        spec_rounds(p1, p2, n).0.len() == 0 || spec_rounds(p1, p2, n).1.len() == 0,
    ensures
        spec_rounds(p1, p2, m) == spec_rounds(p1, p2, n),
    decreases m,
{
    if m > n {
        lemma_rounds_stable(p1, p2, n, (m - 1) as nat);
    }
}

/// Copies the first `k` cards of a hand.
fn take_front(q: &VecDeque<u32>, k: usize) -> (r: VecDeque<u32>)
    requires
        k <= q@.len(),
    ensures
        r@ == q@.take(k as int),
{
    let mut r: VecDeque<u32> = VecDeque::new();
    let mut i: usize = 0;
    proof {
        assert(q@.take(0) =~= Seq::<u32>::empty());
    }
    while i < k
        invariant
            i <= k <= q@.len(),
            r@ == q@.take(i as int),
        decreases k - i,
    {
        r.push_back(q[i]);
        proof {
            assert(q@.take(i + 1) =~= q@.take(i as int).push(q@[i as int]));
        }
        i = i + 1;
    }
    r
}

/// Plays the simple game to its end: rounds are played until a hand is
/// empty, and the winner's hand is scored. A game that cycles forever
/// would stop unscored only after `u32::MAX` rounds.
pub fn part_1_simple_game(p1_hand: &VecDeque<u32>, p2_hand: &VecDeque<u32>) -> (score: u32)
    requires
        p1_hand@.len() + p2_hand@.len() <= 1000,
        cards_bounded(p1_hand@, 1000),
        cards_bounded(p2_hand@, 1000),
    ensures
        exists|n: nat|
            #![trigger spec_rounds(p1_hand@, p2_hand@, n)]
            {
                let fin = spec_rounds(p1_hand@, p2_hand@, n);
                &&& n <= u32::MAX
                &&& (fin.0.len() == 0 || fin.1.len() == 0 || n == u32::MAX)
                &&& score == spec_score(
                    if fin.1.len() == 0 {
                        fin.0
                    } else {
                        fin.1
                    },
                )
            },
        forall|n: nat|
            {
                let fin = #[trigger] spec_rounds(p1_hand@, p2_hand@, n);
                n <= u32::MAX && (fin.0.len() == 0 || fin.1.len() == 0) ==> score == spec_score(
                    if fin.1.len() == 0 {
                        fin.0
                    } else {
                        fin.1
                    },
                )
            },
{
    let ghost g1 = p1_hand@;
    let ghost g2 = p2_hand@;
    let mut p1 = take_front(p1_hand, p1_hand.len());
    let mut p2 = take_front(p2_hand, p2_hand.len());
    proof {
        assert(g1.take(g1.len() as int) =~= g1);
        assert(g2.take(g2.len() as int) =~= g2);
    }
    let mut n: u32 = 0;
    let mut done = false;
    while !done && n < u32::MAX
        invariant
            n <= u32::MAX,
            g1 == p1_hand@,
            g2 == p2_hand@,
            (p1@, p2@) == spec_rounds(g1, g2, n as nat),
            p1@.len() + p2@.len() <= 1000,
            cards_bounded(p1@, 1000),
            cards_bounded(p2@, 1000),
            done ==> (p1@.len() == 0 || p2@.len() == 0),
        decreases (if done { 0int } else { 1int }), u32::MAX - n,
    {
        if p1.len() == 0 || p2.len() == 0 {
            done = true;
        } else {
            let ghost prev1 = p1@;
            let ghost prev2 = p2@;
            let p1_card = p1.pop_front().unwrap();
            let p2_card = p2.pop_front().unwrap();
            proof {
                assert(p1@ =~= prev1.drop_first());
                assert(p2@ =~= prev2.drop_first());
            }
            if p1_card > p2_card {
                p1.push_back(p1_card);
                p1.push_back(p2_card);
            } else {
                p2.push_back(p2_card);
                p2.push_back(p1_card);
            }
            proof {
                assert((p1@, p2@) == spec_round(prev1, prev2));
            }
            n = n + 1;
        }
    }
    let player_1_wins = p2.len() == 0;
    proof {
        let fin = spec_rounds(g1, g2, n as nat);
        assert(fin == (p1@, p2@));
        if p2@.len() == 0 {
            lemma_score_bound(p1@, 1000);
            assert(p1@.len() * p1@.len() * 1000 <= u32::MAX) by (nonlinear_arith)
                requires
                    p1@.len() <= 1000,
            ;
        } else {
            lemma_score_bound(p2@, 1000);
            assert(p2@.len() * p2@.len() * 1000 <= u32::MAX) by (nonlinear_arith)
                requires
                    p2@.len() <= 1000,
            ;
        }
    }
    proof {
        assert forall|n2: nat|
            {
                let fin2 = #[trigger] spec_rounds(g1, g2, n2);
                n2 <= u32::MAX && (fin2.0.len() == 0 || fin2.1.len() == 0) ==> (p1@, p2@) == fin2
            } by {
            let fin2 = spec_rounds(g1, g2, n2);
            if n2 <= u32::MAX && (fin2.0.len() == 0 || fin2.1.len() == 0) {
                if n2 <= n as nat {
                    lemma_rounds_stable(g1, g2, n2, n as nat);
                } else if p1@.len() == 0 || p2@.len() == 0 {
                    lemma_rounds_stable(g1, g2, n as nat, n2);
                }
            }
        }
    }
    if player_1_wins {
        sum_hand(&p1)
    } else {
        sum_hand(&p2)
    }
}

/// The recursive game, mirrored step for step: a repeated position gives
/// the game to the first player; a round whose top cards are both smaller
/// than their holders' hand sizes is decided by a subgame over copies of
/// that many next cards; any other round goes to the higher card. `None`
/// stands for a game still unfinished after `fuel` steps.
pub open spec fn rec_game(p1: Seq<u32>, p2: Seq<u32>, seen: Set<u64>, fuel: nat) -> Option<
    (bool, Seq<u32>, Seq<u32>),
>
    decreases p1.len() + p2.len(), fuel,
{
    let h1 = spec_calculate_hash(p1);
    let h2 = spec_calculate_hash(p2);
    if seen.contains(h1) || seen.contains(h2) {
        Some((true, p1, p2))
    } else if p2.len() == 0 {
        Some((true, p1, p2))
    } else if p1.len() == 0 {
        Some((false, p1, p2))
    } else if fuel == 0 {
        None
    } else {
        let seen2 = seen.insert(h1).insert(h2);
        let c1 = p1[0];
        let c2 = p2[0];
        let r1 = p1.drop_first();
        let r2 = p2.drop_first();
        if c1 >= p1.len() || c2 >= p2.len() {
            if c1 > c2 {
                rec_game(r1.push(c1).push(c2), r2, seen2, (fuel - 1) as nat)
            } else {
                rec_game(r1, r2.push(c2).push(c1), seen2, (fuel - 1) as nat)
            }
        } else {
            match rec_game(r1.take(c1 as int), r2.take(c2 as int), Set::empty(), (fuel - 1) as nat) {
                None => None,
                Some((sub_wins, _, _)) => if sub_wins {
                    rec_game(r1.push(c1).push(c2), r2, seen2, (fuel - 1) as nat)
                } else {
                    rec_game(r1, r2.push(c2).push(c1), seen2, (fuel - 1) as nat)
                },
            }
        }
    }
}

/// Plays the recursive game, mirroring [`rec_game`].
fn rec_game_impl(p1: VecDeque<u32>, p2: VecDeque<u32>, seen: HashSet<u64>, fuel: u32) -> (res:
    Option<(bool, VecDeque<u32>, VecDeque<u32>)>)
    requires
        p1@.len() + p2@.len() <= 1000,
        cards_bounded(p1@, 1000),
        cards_bounded(p2@, 1000),
    ensures
        ({
            let spec_res = rec_game(p1@, p2@, seen@, fuel as nat);
            match res {
                Some(t) => spec_res == Some((t.0, t.1@, t.2@)),
                None => spec_res is None,
            }
        }),
        res matches Some(t) ==> {
            &&& t.1@.len() + t.2@.len() <= 1000
            &&& cards_bounded(t.1@, 1000)
            &&& cards_bounded(t.2@, 1000)
        },
    decreases p1@.len() + p2@.len(), fuel,
{
    broadcast use vstd::std_specs::hash::group_hash_axioms;

    let h1 = calculate_hash(&p1);
    let h2 = calculate_hash(&p2);
    if seen.contains(&h1) || seen.contains(&h2) {
        return Some((true, p1, p2));
    }
    if p2.len() == 0 {
        return Some((true, p1, p2));
    }
    if p1.len() == 0 {
        return Some((false, p1, p2));
    }
    if fuel == 0 {
        return None;
    }
    let mut seen = seen;
    seen.insert(h1);
    seen.insert(h2);
    let ghost prev1 = p1@;
    let ghost prev2 = p2@;
    let l1 = p1.len();
    let l2 = p2.len();
    let mut p1 = p1;
    let mut p2 = p2;
    let c1 = p1.pop_front().unwrap();
    let c2 = p2.pop_front().unwrap();
    proof {
        assert(p1@ =~= prev1.drop_first());
        assert(p2@ =~= prev2.drop_first());
    }
    let p1_wins: bool;
    if c1 as usize >= l1 || c2 as usize >= l2 {
        p1_wins = c1 > c2;
    } else {
        let sub1 = take_front(&p1, c1 as usize);
        let sub2 = take_front(&p2, c2 as usize);
        proof {
            assert(cards_bounded(sub1@, 1000));
            assert(cards_bounded(sub2@, 1000));
        }
        match rec_game_impl(sub1, sub2, HashSet::new(), fuel - 1) {
            Some((sub_wins, _, _)) => {
                p1_wins = sub_wins;
            },
            None => {
                return None;
            },
        }
    }
    if p1_wins {
        p1.push_back(c1);
        p1.push_back(c2);
        proof {
            assert(p1@ =~= prev1.drop_first().push(prev1[0]).push(prev2[0]));
        }
    } else {
        p2.push_back(c2);
        p2.push_back(c1);
        proof {
            assert(p2@ =~= prev2.drop_first().push(prev2[0]).push(prev1[0]));
        }
    }
    rec_game_impl(p1, p2, seen, fuel - 1)
}

/// Plays the recursive game to its end and scores the winner's hand. A
/// game still unfinished after `u32::MAX` steps — far beyond any real
/// game — is scored zero for the first player.
pub fn part_2_rec_game(p1_hand: &VecDeque<u32>, p2_hand: &VecDeque<u32>) -> (res: (bool, u32))
    requires
        p1_hand@.len() + p2_hand@.len() <= 1000,
        cards_bounded(p1_hand@, 1000),
        cards_bounded(p2_hand@, 1000),
    ensures
        match rec_game(p1_hand@, p2_hand@, Set::empty(), u32::MAX as nat) {
            Some((w, f1, f2)) => res.0 == w && res.1 == spec_score(
                if w {
                    f1
                } else {
                    f2
                },
            ),
            None => res == (true, 0u32),
        },
{
    broadcast use vstd::std_specs::hash::group_hash_axioms;

    let ghost g1 = p1_hand@;
    let ghost g2 = p2_hand@;
    let p1 = take_front(p1_hand, p1_hand.len());
    let p2 = take_front(p2_hand, p2_hand.len());
    proof {
        assert(g1.take(g1.len() as int) =~= g1);
        assert(g2.take(g2.len() as int) =~= g2);
    }
    match rec_game_impl(p1, p2, HashSet::new(), u32::MAX) {
        Some((player_1_wins, f1, f2)) => {
            let winning_hand = if player_1_wins {
                proof {
                    lemma_score_bound(f1@, 1000);
                    assert(f1@.len() * f1@.len() * 1000 <= u32::MAX) by (nonlinear_arith)
                        requires
                            f1@.len() <= 1000,
                    ;
                }
                sum_hand(&f1)
            } else {
                proof {
                    lemma_score_bound(f2@, 1000);
                    assert(f2@.len() * f2@.len() * 1000 <= u32::MAX) by (nonlinear_arith)
                        requires
                            f2@.len() <= 1000,
                    ;
                }
                sum_hand(&f2)
            };
            (player_1_wins, winning_hand)
        },
        None => (true, 0),
    }
}

} // verus!

