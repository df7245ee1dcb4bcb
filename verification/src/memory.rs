//! The spoken-number memory game.
//!
//! Starting numbers are spoken first; afterwards each turn speaks 0 if the
//! last number was new, and otherwise the gap since it was last spoken.
//! A map from number to the turn it was last spoken drives the game.

use std::collections::HashMap;
use vstd::prelude::*;

verus! {

/// The map from each starting number to its one-based turn; a repeated
/// number keeps its latest turn.
pub open spec fn spec_starting_map(s: Seq<u64>) -> Map<u64, u64>
    decreases s.len(),
{
    if s.len() == 0 {
        Map::empty()
    } else {
        spec_starting_map(s.drop_last()).insert(s.last(), s.len() as u64)
    }
}

/// Fills the turn map from the starting numbers.
pub fn generate_starting_map(input: &Vec<u64>) -> (m: HashMap<u64, u64>)
    requires
        input@.len() <= u64::MAX,
    ensures
        m@ == spec_starting_map(input@),
{
    broadcast use vstd::std_specs::hash::group_hash_axioms;

    let mut num_to_turn_last_spoken: HashMap<u64, u64> = HashMap::new();
    let mut index: usize = 0;
    proof {
        assert(input@.take(0) =~= Seq::<u64>::empty());
        assert(num_to_turn_last_spoken@ =~= spec_starting_map(input@.take(0)));
    }
    while index < input.len()
        invariant
            index <= input@.len() <= u64::MAX,
            num_to_turn_last_spoken@ == spec_starting_map(input@.take(index as int)),
        decreases input@.len() - index,
    {
        let num = input[index];
        num_to_turn_last_spoken.insert(num, index as u64 + 1);
        proof {
            assert(input@.take(index + 1).drop_last() =~= input@.take(index as int));
            assert(input@.take(index + 1).last() == input@[index as int]);
        }
        index = index + 1;
    }
    proof {
        assert(input@.take(input@.len() as int) =~= input@);
    }
    num_to_turn_last_spoken
}

/// Every remembered turn lies below `turn`.
pub open spec fn turns_below(m: Map<u64, u64>, turn: int) -> bool {
    forall|k: u64| m.contains_key(k) ==> 1 <= #[trigger] m[k] < turn
}

/// The game's state after `n` spoken turns past the starting numbers: the
/// turn map and the number last spoken.
pub open spec fn spec_game_at(input: Seq<u64>, n: nat) -> (Map<u64, u64>, u64)
    recommends
        input.len() >= 1,
    decreases n,
{
    if n == 0 {
        (spec_starting_map(input.drop_last()), input.last())
    } else {
        let prev = spec_game_at(input, (n - 1) as nat);
        let m = prev.0;
        let last = prev.1;
        let turn = input.len() + n - 1;
        let speak: u64 = if m.contains_key(last) {
            (turn - m[last]) as u64
        } else {
            0
        };
        (m.insert(last, turn as u64), speak)
    }
}

/// Remembered turns stay below the current turn as the game advances.
pub proof fn lemma_starting_map_turns(s: Seq<u64>, turn: int)
    requires
        s.len() < turn,
        s.len() <= u64::MAX,
    ensures
        turns_below(spec_starting_map(s), turn),
    decreases s.len(),
{
    if s.len() > 0 {
        lemma_starting_map_turns(s.drop_last(), turn);
        assert forall|k: u64| spec_starting_map(s).contains_key(k) implies 1 <= spec_starting_map(
            s,
        )[k] < turn by {
            if k != s.last() {
                assert(spec_starting_map(s.drop_last()).contains_key(k));
            }
        }
    }
}

/// Plays the game for the given number of rounds and gives the number
/// spoken last.
pub fn speak_numbers(input: &Vec<u64>, num_rounds: u64) -> (last: u64)
    requires
        input@.len() >= 1,
        input@.len() <= num_rounds,
        num_rounds < u64::MAX,
    ensures
        last == spec_game_at(input@, (num_rounds - input@.len()) as nat).1,
{
    broadcast use vstd::std_specs::hash::group_hash_axioms;

    let input_len = input.len();
    let ghost whole = input@;
    let prefix = {
        let mut prefix: Vec<u64> = Vec::new();
        let mut i: usize = 0;
        while i < input_len - 1
            invariant
                input_len == whole.len(),
                1 <= whole.len(),
                i <= whole.len() - 1,
                whole == input@,
                whole.len() >= 1,
                prefix@ == whole.take(i as int),
            decreases whole.len() - 1 - i,
        {
            prefix.push(input[i]);
            proof {
                assert(whole.take(i + 1) =~= whole.take(i as int).push(whole[i as int]));
            }
            i = i + 1;
        }
        prefix
    };
    proof {
        assert(whole.take(whole.len() - 1) =~= whole.drop_last());
    }
    let mut num_to_turn_last_spoken = generate_starting_map(&prefix);
    let mut last_spoken_num = input[input_len - 1];
    let mut turn: u64 = input_len as u64;
    proof {
        lemma_starting_map_turns(whole.drop_last(), input_len as int);
    }
    while turn < num_rounds
        invariant
            whole == input@,
            whole.len() >= 1,
            whole.len() <= turn <= num_rounds,
            num_rounds < u64::MAX,
            (num_to_turn_last_spoken@, last_spoken_num) == spec_game_at(
                whole,
                (turn - whole.len()) as nat,
            ),
            turns_below(num_to_turn_last_spoken@, turn as int),
        decreases num_rounds - turn,
    {
        let num_to_speak: u64 = match num_to_turn_last_spoken.get(&last_spoken_num) {
            Some(turn_last_spoken) => turn - *turn_last_spoken,
            None => 0,
        };
        num_to_turn_last_spoken.insert(last_spoken_num, turn);
        last_spoken_num = num_to_speak;
        turn = turn + 1;
        proof {
            assert((num_to_turn_last_spoken@, last_spoken_num) == spec_game_at(
                whole,
                (turn - whole.len()) as nat,
            ));
        }
    }
    last_spoken_num
}

} // verus!
