//! Sorting the candidates into buckets by the feedback that one guess gets.

use crate::score::Score;
use crate::score_cache::ScoreCache;
use crate::sums::{lemma_sum_push, lemma_sum_update, sum};
use crate::word_list::{list_get, list_len, list_new, list_push, WordList};
use vstd::prelude::*;

verus! {

/// `halfbrown::SizedHashMap`, the type behind `halfbrown::HashMap`, as a type
/// whose inside is not looked into.
#[verifier::external_type_specification]
#[verifier::external_body]
#[verifier::reject_recursive_types(K)]
#[verifier::reject_recursive_types(V)]
#[verifier::reject_recursive_types(S)]
pub struct ExSizedHashMap<K, V, S, const N: usize>(halfbrown::SizedHashMap<K, V, S, N>);

/// `halfbrown::DefaultHashBuilder`, the hasher that `halfbrown::HashMap` takes
/// when none is named, as a type whose inside is not looked into.
#[verifier::external_type_specification]
#[verifier::external_body]
pub struct ExDefaultHashBuilder(halfbrown::DefaultHashBuilder);

/// The entries of a `halfbrown::HashMap` from feedback codes to places in a
/// list of buckets.
pub uninterp spec fn slot_entries(slots: halfbrown::HashMap<u8, usize>) -> Map<u8, usize>;

/// `halfbrown::HashMap::new`: the new map has no entry.
#[verifier::external_body]
fn slots_new() -> (slots: halfbrown::HashMap<u8, usize>)
    ensures
        slot_entries(slots).dom() == Set::<u8>::empty(),
{
    halfbrown::HashMap::new()
}

/// `halfbrown::HashMap::get`: the value stored under the key, if there is one.
#[verifier::external_body]
fn slots_get(slots: &halfbrown::HashMap<u8, usize>, code: u8) -> (slot: Option<usize>)
    ensures
        slot == (if slot_entries(*slots).dom().contains(code) {
            Some(slot_entries(*slots)[code])
        } else {
            None
        }),
{
    slots.get(&code).copied()
}

/// `halfbrown::HashMap::insert`: the key now maps to the value, every other
/// entry stays, and the value that the key had before is returned.
#[verifier::external_body]
fn slots_insert(slots: &mut halfbrown::HashMap<u8, usize>, code: u8, slot: usize) -> (before: Option<usize>)
    ensures
        slot_entries(*final(slots)) == slot_entries(*old(slots)).insert(code, slot),
        before == (if slot_entries(*old(slots)).dom().contains(code) {
            Some(slot_entries(*old(slots))[code])
        } else {
            None
        }),
{
    slots.insert(code, slot)
}

/// A bucket: a feedback code and the candidates that give it.
pub type Bucket = (u8, Seq<u16>);

/// The place of the first bucket with the given code, or the number of
/// buckets if none has it.
pub open spec fn slot_of(buckets: Seq<Bucket>, code: u8) -> int
    decreases buckets.len(),
{
    if buckets.len() == 0 {
        0
    } else if buckets[0].0 == code {
        0
    } else {
        1 + slot_of(buckets.drop_first(), code)
    }
}

/// Adds a word to the bucket of its code, or opens a bucket for it behind the
/// others.
pub open spec fn place(buckets: Seq<Bucket>, code: u8, word: u16) -> Seq<Bucket> {
    let slot = slot_of(buckets, code);
    if slot < buckets.len() {
        buckets.update(slot, (code, buckets[slot].1.push(word)))
    } else {
        buckets.push((code, seq![word]))
    }
}

/// The buckets that the first `upto` candidates fall into when `guess` is
/// guessed. The guess itself falls into none: with it the game is won.
/// Buckets stand in the order in which their first word came.
pub open spec fn partition(table: Seq<Seq<u8>>, words: Seq<u16>, guess: u16, upto: nat) -> Seq<Bucket>
    decreases upto,
{
    if upto == 0 {
        Seq::empty()
    } else {
        let before = partition(table, words, guess, (upto - 1) as nat);
        let word = words[upto - 1];
        if word == guess {
            before
        } else {
            place(before, table[word as int][guess as int], word)
        }
    }
}

/// The buckets of a whole candidate list.
pub open spec fn buckets_of(table: Seq<Seq<u8>>, words: Seq<u16>, guess: u16) -> Seq<Bucket> {
    partition(table, words, guess, words.len())
}

/// The sizes of the buckets, in order.
pub open spec fn sizes_of(buckets: Seq<Bucket>) -> Seq<nat> {
    Seq::new(buckets.len(), |i: int| buckets[i].1.len())
}

/// What `slot_of` finds: the first bucket with the code, if any.
pub proof fn lemma_slot_of(buckets: Seq<Bucket>, code: u8)
    ensures
        0 <= slot_of(buckets, code) <= buckets.len(),
        slot_of(buckets, code) < buckets.len() ==> buckets[slot_of(buckets, code)].0 == code,
        forall|j: int| 0 <= j < slot_of(buckets, code) ==> (#[trigger] buckets[j]).0 != code,
    decreases buckets.len(),
{
    if buckets.len() > 0 && buckets[0].0 != code {
        let rest = buckets.drop_first();
        lemma_slot_of(rest, code);
        assert forall|j: int| 0 <= j < slot_of(buckets, code) implies (#[trigger] buckets[j]).0 != code by {
            if j > 0 {
                assert(buckets[j] == rest[j - 1]);
            }
        }
    }
}

/// A place that satisfies what `slot_of` finds is what `slot_of` finds.
pub proof fn lemma_slot_of_is(buckets: Seq<Bucket>, code: u8, slot: int)
    requires
        0 <= slot <= buckets.len(),
        slot < buckets.len() ==> buckets[slot].0 == code,
        forall|j: int| 0 <= j < slot ==> (#[trigger] buckets[j]).0 != code,
    ensures
        slot_of(buckets, code) == slot,
{
    lemma_slot_of(buckets, code);
    let found = slot_of(buckets, code);
    if found < slot {
        assert(buckets[found].0 != code);
    }
}

/// Whether no two buckets share a code.
pub open spec fn codes_differ(buckets: Seq<Bucket>) -> bool {
    forall|i: int, j: int| 0 <= i < j < buckets.len() ==> (#[trigger] buckets[i]).0 != (#[trigger] buckets[j]).0
}

/// What holds of the buckets of a list without repetitions: no two share a
/// code, none is empty, each holds candidates of the list other than the guess,
/// none of them twice, and together they hold every candidate but the guess.
pub proof fn lemma_partition(table: Seq<Seq<u8>>, words: Seq<u16>, guess: u16, upto: nat)
    requires
        upto <= words.len(),
        words.no_duplicates(),
    ensures
        codes_differ(partition(table, words, guess, upto)),
        forall|i: int|
            0 <= i < partition(table, words, guess, upto).len() ==> (#[trigger] partition(
                table,
                words,
                guess,
                upto,
            )[i]).1.len() >= 1,
        forall|i: int, x: int|
            0 <= i < partition(table, words, guess, upto).len() && 0 <= x < partition(
                table,
                words,
                guess,
                upto,
            )[i].1.len() ==> {
                &&& words.take(upto as int).contains(
                    #[trigger] partition(table, words, guess, upto)[i].1[x],
                )
                &&& partition(table, words, guess, upto)[i].1[x] != guess
            },
        forall|i: int|
            0 <= i < partition(table, words, guess, upto).len() ==> (#[trigger] partition(
                table,
                words,
                guess,
                upto,
            )[i]).1.no_duplicates(),
        sum(sizes_of(partition(table, words, guess, upto))) + (if words.take(upto as int).contains(guess) {
            1nat
        } else {
            0nat
        }) == upto,
    decreases upto,
{
    if upto > 0 {
        let before = partition(table, words, guess, (upto - 1) as nat);
        let after = partition(table, words, guess, upto);
        let word = words[upto - 1];
        lemma_partition(table, words, guess, (upto - 1) as nat);
        let earlier = words.take(upto - 1);
        let now = words.take(upto as int);
        assert(now =~= earlier.push(word));
        assert forall|v: u16| earlier.contains(v) implies now.contains(v) by {
            let j = choose|j: int| 0 <= j < earlier.len() && earlier[j] == v;
            assert(now[j] == v);
        }
        assert(now[upto - 1] == word);
        assert(!earlier.contains(word)) by {
            if earlier.contains(word) {
                let j = choose|j: int| 0 <= j < earlier.len() && earlier[j] == word;
                assert(words[j] == words[upto - 1]);
            }
        }
        if word == guess {
            assert(now.contains(guess));
        } else {
            assert(now.contains(guess) == earlier.contains(guess)) by {
                if now.contains(guess) {
                    let j = choose|j: int| 0 <= j < now.len() && now[j] == guess;
                    assert(earlier[j] == guess);
                }
            }
            let code = table[word as int][guess as int];
            let slot = slot_of(before, code);
            lemma_slot_of(before, code);
            if slot < before.len() {
                let grown = before[slot].1.push(word);
                assert(after == before.update(slot, (code, grown)));
                assert(sizes_of(after) =~= sizes_of(before).update(slot, sizes_of(before)[slot] + 1));
                lemma_sum_update(sizes_of(before), slot, sizes_of(before)[slot] + 1);
                assert forall|i: int, x: int| 0 <= i < after.len() && 0 <= x < after[i].1.len() implies {
                    &&& now.contains(#[trigger] after[i].1[x])
                    &&& after[i].1[x] != guess
                } by {
                    if i == slot && x == grown.len() - 1 {
                    } else {
                        assert(after[i].1[x] == before[i].1[x]);
                        assert(earlier.contains(before[i].1[x]));
                    }
                }
                assert forall|i: int| 0 <= i < after.len() implies (#[trigger] after[i]).1.no_duplicates() by {
                    if i == slot {
                        assert forall|x: int, y: int| 0 <= x < grown.len() && 0 <= y < grown.len() && x != y implies grown[x] != grown[y] by {
                            if x < grown.len() - 1 {
                                assert(earlier.contains(before[slot].1[x]));
                            }
                            if y < grown.len() - 1 {
                                assert(earlier.contains(before[slot].1[y]));
                            }
                        }
                    } else {
                        assert(after[i] == before[i]);
                    }
                }
                assert forall|i: int| 0 <= i < after.len() implies (#[trigger] after[i]).1.len() >= 1 by {
                    if i != slot {
                        assert(after[i] == before[i]);
                    }
                }
                assert forall|i: int, j: int| 0 <= i < j < after.len() implies (#[trigger] after[i]).0 != (
                #[trigger] after[j]).0 by {
                    assert(after[i].0 == before[i].0);
                    assert(after[j].0 == before[j].0);
                }
            } else {
                assert(after == before.push((code, seq![word])));
                assert(sizes_of(after) =~= sizes_of(before).push(1));
                lemma_sum_push(sizes_of(before), 1);
                assert forall|i: int, x: int| 0 <= i < after.len() && 0 <= x < after[i].1.len() implies {
                    &&& now.contains(#[trigger] after[i].1[x])
                    &&& after[i].1[x] != guess
                } by {
                    if i < before.len() {
                        assert(after[i].1[x] == before[i].1[x]);
                        assert(earlier.contains(before[i].1[x]));
                    }
                }
                assert forall|i: int| 0 <= i < after.len() implies (#[trigger] after[i]).1.no_duplicates() by {
                    if i < before.len() {
                        assert(after[i] == before[i]);
                    }
                }
                assert forall|i: int| 0 <= i < after.len() implies (#[trigger] after[i]).1.len() >= 1 by {
                    if i < before.len() {
                        assert(after[i] == before[i]);
                    }
                }
                assert forall|i: int, j: int| 0 <= i < j < after.len() implies (#[trigger] after[i]).0 != (
                #[trigger] after[j]).0 by {
                    assert(after[i] == before[i]);
                    if j < before.len() {
                        assert(after[j] == before[j]);
                    }
                }
            }
        }
    } else {
        assert(sizes_of(partition(table, words, guess, upto)) =~= Seq::<nat>::empty());
        assert(words.take(0).len() == 0);
    }
}

/// The buckets that a list of codes and word lists stands for.
pub open spec fn buckets_view(buckets: Seq<(Score, WordList)>) -> Seq<Bucket> {
    Seq::new(buckets.len(), |i: int| (buckets[i].0.code, buckets[i].1@))
}

/// Whether a map of slots gives, for every code, the place of its bucket.
spec fn slots_match(slots: Map<u8, usize>, buckets: Seq<Bucket>) -> bool {
    forall|code: u8|
        {
            &&& slots.dom().contains(code) <==> #[trigger] slot_of(buckets, code) < buckets.len()
            &&& slots.dom().contains(code) ==> slots[code] == slot_of(buckets, code)
        }
}

/// Sorts the candidates other than `guess` into buckets by the feedback that
/// `guess` gets from each of them.
pub fn split_by_feedback(cache: &ScoreCache, words: &WordList, guess: u16) -> (buckets: Vec<(Score, WordList)>)
    requires
        guess < cache@.len(),
        forall|i: int| 0 <= i < words@.len() ==> (#[trigger] words@[i]) < cache@.len(),
    ensures
        buckets_view(buckets@) == buckets_of(cache@, words@, guess),
{
    let mut slots = slots_new();
    let mut buckets: Vec<(Score, WordList)> = Vec::new();
    let n = list_len(words);
    let mut i: usize = 0;
    assert(buckets_view(buckets@) =~= partition(cache@, words@, guess, 0));
    while i < n
        invariant
            i <= n,
            n == words@.len(),
            guess < cache@.len(),
            forall|k: int| 0 <= k < words@.len() ==> (#[trigger] words@[k]) < cache@.len(),
            buckets_view(buckets@) == partition(cache@, words@, guess, i as nat),
            slots_match(slot_entries(slots), buckets_view(buckets@)),
        decreases n - i,
    {
        let solution = list_get(words, i);
        let ghost before = buckets_view(buckets@);
        if solution != guess {
            let score = cache.rate_guess(solution, guess);
            proof {
                lemma_slot_of(before, score.code);
            }
            match slots_get(&slots, score.code) {
                Some(slot) => {
                    list_push(&mut buckets[slot].1, solution);
                    proof {
                        let after = buckets_view(buckets@);
                        assert(buckets@[slot as int].0.code == score.code);
                        assert(after =~= place(before, score.code, solution));
                        assert forall|code: u8| #[trigger] slot_of(after, code) == slot_of(before, code) by {
                            lemma_slot_of(before, code);
                            let found = slot_of(before, code);
                            assert forall|j: int| 0 <= j < found implies (#[trigger] after[j]).0 != code by {
                                assert(after[j].0 == before[j].0);
                            }
                            if found < before.len() {
                                assert(after[found].0 == before[found].0);
                            }
                            lemma_slot_of_is(after, code, found);
                        }
                    }
                },
                None => {
                    let ghost old_slots = slot_entries(slots);
                    let fresh = buckets.len();
                    slots_insert(&mut slots, score.code, fresh);
                    let mut list = list_new();
                    list_push(&mut list, solution);
                    buckets.push((score, list));
                    proof {
                        let after = buckets_view(buckets@);
                        assert(Seq::<u16>::empty().push(solution) =~= seq![solution]);
                        assert(after =~= place(before, score.code, solution));
                        assert forall|code: u8|
                            {
                                &&& slot_entries(slots).dom().contains(code) <==> #[trigger] slot_of(after, code)
                                    < after.len()
                                &&& slot_entries(slots).dom().contains(code) ==> slot_entries(slots)[code]
                                    == slot_of(after, code)
                            } by {
                            lemma_slot_of(before, code);
                            let found = slot_of(before, code);
                            assert forall|j: int| 0 <= j < found implies (#[trigger] after[j]).0 != code by {
                                assert(after[j] == before[j]);
                            }
                            if code == score.code {
                                lemma_slot_of_is(after, code, before.len() as int);
                            } else {
                                if found < before.len() {
                                    assert(after[found] == before[found]);
                                    lemma_slot_of_is(after, code, found);
                                } else {
                                    lemma_slot_of_is(after, code, after.len() as int);
                                }
                            }
                        }
                    }
                },
            }
        }
        i += 1;
    }
    buckets
}

} // verus!
