//! The order of a roster: higher initiative first, ties in the order they already had.
//!
//! `is_ranking_of` says what it is for one roster to be another put in order; the lemmas
//! show that every roster has exactly one ranking, and that it holds the same
//! characters. `rank` puts a roster in order.

use vstd::prelude::*;
use crate::character::{Character, CharacterView};
use crate::filter::{
    lemma_filter_drops, lemma_filter_keeps_count, lemma_filter_none, lemma_kept_once,
    lemma_kept_twice, lemma_two_kept,
};

verus! {

/// The characters of a list, each as plain values, in the list's order.
pub open spec fn character_views(characters: Seq<Character>) -> Seq<CharacterView> {
    characters.map_values(|c: Character| c@)
}

/// Whether no character of the roster stands behind one of lower initiative.
pub open spec fn is_ranked(roster: Seq<CharacterView>) -> bool {
    forall|i: int, j: int|
        #![trigger roster[i], roster[j]]
        0 <= i < j < roster.len() ==> roster[i].initiative >= roster[j].initiative
}

/// Whether every character of the roster has a higher initiative than those behind it.
pub open spec fn is_strictly_ranked(roster: Seq<CharacterView>) -> bool {
    forall|i: int, j: int|
        #![trigger roster[i], roster[j]]
        0 <= i < j < roster.len() ==> roster[i].initiative > roster[j].initiative
}

/// Whether no two characters of the roster have the same initiative.
pub open spec fn has_distinct_initiatives(roster: Seq<CharacterView>) -> bool {
    forall|i: int, j: int|
        #![trigger roster[i], roster[j]]
        0 <= i < j < roster.len() ==> roster[i].initiative != roster[j].initiative
}

/// The characters of the roster whose initiative is `initiative`, in the roster's order.
pub open spec fn tied_at(roster: Seq<CharacterView>, initiative: nat) -> Seq<CharacterView> {
    roster.filter(|c: CharacterView| c.initiative == initiative)
}

/// Whether `ranked` is `roster` put in order: higher initiative first, and the characters
/// of any one initiative the same, and in the same order, as in `roster`.
pub open spec fn is_ranking_of(ranked: Seq<CharacterView>, roster: Seq<CharacterView>) -> bool {
    &&& is_ranked(ranked)
    &&& forall|initiative: nat|
        #![trigger tied_at(ranked, initiative)]
        tied_at(ranked, initiative) == tied_at(roster, initiative)
}

/// Where a character of the given initiative goes in a ranked roster: behind the last
/// character of that initiative or a higher one.
pub open spec fn rank_position(ranked: Seq<CharacterView>, initiative: nat) -> int
    decreases ranked.len(),
{
    if ranked.len() == 0 {
        0
    } else if ranked.last().initiative >= initiative {
        ranked.len() as int
    } else {
        rank_position(ranked.drop_last(), initiative)
    }
}

/// The ranking of a roster, built by giving each character its place among those
/// before it.
pub open spec fn ranking(roster: Seq<CharacterView>) -> Seq<CharacterView>
    decreases roster.len(),
{
    if roster.len() == 0 {
        roster
    } else {
        let ranked = ranking(roster.drop_last());
        ranked.insert(rank_position(ranked, roster.last().initiative), roster.last())
    }
}

/// In a ranked roster, the characters before the rank position of an initiative have that
/// initiative or a higher one, the characters from it on a lower one.
proof fn lemma_rank_position(ranked: Seq<CharacterView>, initiative: nat)
    requires
        is_ranked(ranked),
    ensures
        0 <= rank_position(ranked, initiative) <= ranked.len(),
        forall|i: int|
            #![trigger ranked[i]]
            0 <= i < rank_position(ranked, initiative) ==> ranked[i].initiative >= initiative,
        forall|i: int|
            #![trigger ranked[i]]
            rank_position(ranked, initiative) <= i < ranked.len() ==> ranked[i].initiative
                < initiative,
    decreases ranked.len(),
{
    if ranked.len() > 0 && ranked.last().initiative < initiative {
        let shorter = ranked.drop_last();
        lemma_rank_position(shorter, initiative);
        assert forall|i: int|
            #![trigger ranked[i]]
            0 <= i < rank_position(ranked, initiative) implies ranked[i].initiative
            >= initiative by {
            assert(ranked[i] == shorter[i]);
        }
        assert forall|i: int|
            #![trigger ranked[i]]
            rank_position(ranked, initiative) <= i < ranked.len() implies ranked[i].initiative
            < initiative by {
            if i < shorter.len() {
                assert(ranked[i] == shorter[i]);
            }
        }
    }
}

/// Putting a character behind those of its own or higher initiative, and before those of
/// lower, keeps a ranking a ranking.
proof fn lemma_insert_ranked(
    ranked: Seq<CharacterView>,
    roster: Seq<CharacterView>,
    character: CharacterView,
    at: int,
)
    requires
        is_ranking_of(ranked, roster),
        0 <= at <= ranked.len(),
        forall|i: int|
            #![trigger ranked[i]]
            0 <= i < at ==> ranked[i].initiative >= character.initiative,
        forall|i: int|
            #![trigger ranked[i]]
            at <= i < ranked.len() ==> ranked[i].initiative < character.initiative,
    ensures
        is_ranking_of(ranked.insert(at, character), roster.push(character)),
{
    let longer = ranked.insert(at, character);
    let front = ranked.take(at);
    let back = ranked.skip(at);
    assert(is_ranked(longer)) by {
        assert forall|i: int, j: int|
            #![trigger longer[i], longer[j]]
            0 <= i < j < longer.len() implies longer[i].initiative >= longer[j].initiative by {
            let a = if i < at { ranked[i] } else if i == at { character } else { ranked[i - 1] };
            let b = if j < at { ranked[j] } else if j == at { character } else { ranked[j - 1] };
            assert(longer[i] == a);
            assert(longer[j] == b);
        }
    }
    assert(longer =~= front.push(character) + back);
    assert(ranked =~= front + back);
    assert forall|initiative: nat|
        #![trigger tied_at(longer, initiative)]
        tied_at(longer, initiative) == tied_at(roster.push(character), initiative) by {
        let tied = |c: CharacterView| c.initiative == initiative;
        Seq::filter_distributes_over_add(front.push(character), back, tied);
        Seq::filter_distributes_over_add(front, back, tied);
        front.lemma_filter_push(character, tied);
        roster.lemma_filter_push(character, tied);
        assert(tied_at(ranked, initiative) == tied_at(roster, initiative));
        if initiative == character.initiative {
            lemma_filter_none(back, tied);
        }
    }
}

/// Every roster has a ranking: `ranking` gives one.
pub proof fn lemma_ranking_ranks(roster: Seq<CharacterView>)
    ensures
        is_ranking_of(ranking(roster), roster),
    decreases roster.len(),
{
    if roster.len() == 0 {
        assert forall|initiative: nat|
            #![trigger tied_at(ranking(roster), initiative)]
            tied_at(ranking(roster), initiative) == tied_at(roster, initiative) by {}
    } else {
        let shorter = roster.drop_last();
        let last = roster.last();
        lemma_ranking_ranks(shorter);
        lemma_rank_position(ranking(shorter), last.initiative);
        lemma_insert_ranked(
            ranking(shorter),
            shorter,
            last,
            rank_position(ranking(shorter), last.initiative),
        );
        assert(shorter.push(last) =~= roster);
    }
}

/// What leaving out the last character does to those tied at an initiative.
proof fn lemma_tied_at_drop_last(roster: Seq<CharacterView>, initiative: nat)
    requires
        roster.len() > 0,
    ensures
        tied_at(roster, initiative) == if roster.last().initiative == initiative {
            tied_at(roster.drop_last(), initiative).push(roster.last())
        } else {
            tied_at(roster.drop_last(), initiative)
        },
{
    let tied = |c: CharacterView| c.initiative == initiative;
    roster.drop_last().lemma_filter_push(roster.last(), tied);
    assert(roster.drop_last().push(roster.last()) =~= roster);
}

/// A ranked roster without its last character is ranked.
proof fn lemma_drop_last_ranked(roster: Seq<CharacterView>)
    requires
        is_ranked(roster),
        roster.len() > 0,
    ensures
        is_ranked(roster.drop_last()),
{
    let rest = roster.drop_last();
    assert forall|i: int, j: int|
        #![trigger rest[i], rest[j]]
        0 <= i < j < rest.len() implies rest[i].initiative >= rest[j].initiative by {
        assert(roster[i].initiative >= roster[j].initiative);
    }
}

/// The lowest initiative of a ranked roster is the lowest of any ranked roster that
/// holds characters at the same initiatives.
proof fn lemma_last_initiative_alike(a: Seq<CharacterView>, b: Seq<CharacterView>)
    requires
        is_ranked(a),
        is_ranked(b),
        a.len() > 0,
        forall|initiative: nat|
            #![trigger tied_at(a, initiative)]
            tied_at(a, initiative) == tied_at(b, initiative),
    ensures
        b.len() > 0,
        a.last().initiative == b.last().initiative,
{
    let low = a.last().initiative;
    a.lemma_filter_contains(|c: CharacterView| c.initiative == low, a.len() - 1);
    assert(tied_at(a, low) == tied_at(b, low));
    let in_b = lemma_kept_once(b, |c: CharacterView| c.initiative == low);
    let other = b.last().initiative;
    b.lemma_filter_contains(|c: CharacterView| c.initiative == other, b.len() - 1);
    assert(tied_at(a, other) == tied_at(b, other));
    let in_a = lemma_kept_once(a, |c: CharacterView| c.initiative == other);
    assert(b[in_b].initiative >= b[b.len() - 1].initiative);
    assert(a[in_a].initiative >= a[a.len() - 1].initiative);
}

/// Two ranked rosters that hold, at every initiative, the same characters in the same
/// order are one and the same.
proof fn lemma_ranked_alike(a: Seq<CharacterView>, b: Seq<CharacterView>)
    requires
        is_ranked(a),
        is_ranked(b),
        forall|initiative: nat|
            #![trigger tied_at(a, initiative)]
            tied_at(a, initiative) == tied_at(b, initiative),
    ensures
        a == b,
    decreases a.len(),
{
    if a.len() == 0 {
        if b.len() > 0 {
            b.lemma_filter_contains(|c: CharacterView| c.initiative == b[0].initiative, 0);
            assert(tied_at(a, b[0].initiative) == tied_at(b, b[0].initiative));
            a.lemma_filter_len(|c: CharacterView| c.initiative == b[0].initiative);
        }
        assert(a =~= b);
    } else {
        lemma_last_initiative_alike(a, b);
        let low = a.last().initiative;
        let a_rest = a.drop_last();
        let b_rest = b.drop_last();
        lemma_tied_at_drop_last(a, low);
        lemma_tied_at_drop_last(b, low);
        assert(tied_at(a, low) == tied_at(b, low));
        assert(a.last() == tied_at(a, low).last());
        assert(b.last() == tied_at(b, low).last());
        assert forall|initiative: nat|
            #![trigger tied_at(a_rest, initiative)]
            tied_at(a_rest, initiative) == tied_at(b_rest, initiative) by {
            lemma_tied_at_drop_last(a, initiative);
            lemma_tied_at_drop_last(b, initiative);
            assert(tied_at(a, initiative) == tied_at(b, initiative));
            if initiative == low {
                assert(tied_at(a_rest, low) =~= tied_at(a, low).drop_last());
                assert(tied_at(b_rest, low) =~= tied_at(b, low).drop_last());
            }
        }
        lemma_drop_last_ranked(a);
        lemma_drop_last_ranked(b);
        lemma_ranked_alike(a_rest, b_rest);
        assert(a =~= a_rest.push(a.last()));
        assert(b =~= b_rest.push(b.last()));
    }
}

/// A roster has one ranking only: whatever puts it in order gives `ranking`.
pub proof fn lemma_ranking_is_unique(ranked: Seq<CharacterView>, roster: Seq<CharacterView>)
    requires
        is_ranking_of(ranked, roster),
    ensures
        ranked == ranking(roster),
{
    lemma_ranking_ranks(roster);
    assert forall|initiative: nat|
        #![trigger tied_at(ranked, initiative)]
        tied_at(ranked, initiative) == tied_at(ranking(roster), initiative) by {
        assert(tied_at(ranked, initiative) == tied_at(roster, initiative));
        assert(tied_at(ranking(roster), initiative) == tied_at(roster, initiative));
    }
    lemma_ranked_alike(ranked, ranking(roster));
}

/// A ranking holds the characters of the roster, each as often as the roster does.
pub proof fn lemma_ranking_keeps_characters(
    ranked: Seq<CharacterView>,
    roster: Seq<CharacterView>,
)
    requires
        is_ranking_of(ranked, roster),
    ensures
        ranked.to_multiset() == roster.to_multiset(),
        ranked.len() == roster.len(),
{
    assert forall|character: CharacterView|
        ranked.to_multiset().count(character) == roster.to_multiset().count(character) by {
        let initiative = character.initiative;
        let tied = |c: CharacterView| c.initiative == initiative;
        lemma_filter_keeps_count(ranked, tied, character);
        lemma_filter_keeps_count(roster, tied, character);
        assert(tied_at(ranked, initiative) == tied_at(roster, initiative));
    }
    assert(ranked.to_multiset() =~= roster.to_multiset());
    vstd::seq_lib::to_multiset_len(ranked);
    vstd::seq_lib::to_multiset_len(roster);
}

/// A ranking of characters with distinct initiatives is strictly descending.
pub proof fn lemma_distinct_initiatives_rank_strictly(
    ranked: Seq<CharacterView>,
    roster: Seq<CharacterView>,
)
    requires
        is_ranking_of(ranked, roster),
        has_distinct_initiatives(roster),
    ensures
        is_strictly_ranked(ranked),
{
    assert forall|i: int, j: int|
        #![trigger ranked[i], ranked[j]]
        0 <= i < j < ranked.len() implies ranked[i].initiative > ranked[j].initiative by {
        if ranked[i].initiative == ranked[j].initiative {
            let initiative = ranked[i].initiative;
            let tied = |c: CharacterView| c.initiative == initiative;
            lemma_two_kept(ranked, tied, i, j);
            assert(tied_at(ranked, initiative) == tied_at(roster, initiative));
            let places = lemma_kept_twice(roster, tied);
            assert(roster[places.0].initiative != roster[places.1].initiative);
        }
    }
}

/// Putting a ranked roster with one more character in order gives the ranking of the
/// unranked roster with that character.
pub proof fn lemma_ranking_of_ranked_push(roster: Seq<CharacterView>, character: CharacterView)
    ensures
        ranking(ranking(roster).push(character)) == ranking(roster.push(character)),
{
    let ranked = ranking(roster);
    let after = ranking(ranked.push(character));
    lemma_ranking_ranks(roster);
    lemma_ranking_ranks(ranked.push(character));
    assert forall|initiative: nat|
        #![trigger tied_at(after, initiative)]
        tied_at(after, initiative) == tied_at(roster.push(character), initiative) by {
        let tied = |c: CharacterView| c.initiative == initiative;
        assert(tied_at(after, initiative) == tied_at(ranked.push(character), initiative));
        assert(tied_at(ranked, initiative) == tied_at(roster, initiative));
        ranked.lemma_filter_push(character, tied);
        roster.lemma_filter_push(character, tied);
    }
    lemma_ranking_is_unique(after, roster.push(character));
}

/// Two rosters of the same characters, no two of them with the same initiative, hold
/// the same character, if any, at each initiative.
proof fn lemma_distinct_tied_alike(
    first: Seq<CharacterView>,
    second: Seq<CharacterView>,
    initiative: nat,
)
    requires
        has_distinct_initiatives(first),
        first.to_multiset() == second.to_multiset(),
    ensures
        tied_at(first, initiative) == tied_at(second, initiative),
{
    let tied = |c: CharacterView| c.initiative == initiative;
    let a = tied_at(first, initiative);
    let b = tied_at(second, initiative);
    assert forall|character: CharacterView|
        a.to_multiset().count(character) == b.to_multiset().count(character) by {
        if tied(character) {
            lemma_filter_keeps_count(first, tied, character);
            lemma_filter_keeps_count(second, tied, character);
        } else {
            lemma_filter_drops(first, tied, character);
            lemma_filter_drops(second, tied, character);
        }
    }
    assert(a.to_multiset() =~= b.to_multiset());
    vstd::seq_lib::to_multiset_len(a);
    vstd::seq_lib::to_multiset_len(b);
    if a.len() >= 2 {
        let places = lemma_kept_twice(first, tied);
        assert(first[places.0].initiative != first[places.1].initiative);
    }
    if a.len() == 1 {
        assert(a.contains(a[0]));
        vstd::seq_lib::to_multiset_contains(a, a[0]);
        vstd::seq_lib::to_multiset_contains(b, a[0]);
        assert(b[0] == a[0]);
    }
    assert(a =~= b);
}

/// Rosters of the same characters, no two of them with the same initiative, have the
/// same ranking, whatever the order the characters stand in.
pub proof fn lemma_order_is_immaterial(first: Seq<CharacterView>, second: Seq<CharacterView>)
    requires
        has_distinct_initiatives(first),
        first.to_multiset() == second.to_multiset(),
    ensures
        ranking(first) == ranking(second),
{
    lemma_ranking_ranks(second);
    assert forall|initiative: nat|
        #![trigger tied_at(ranking(second), initiative)]
        tied_at(ranking(second), initiative) == tied_at(first, initiative) by {
        assert(tied_at(ranking(second), initiative) == tied_at(second, initiative));
        lemma_distinct_tied_alike(first, second, initiative);
    }
    lemma_ranking_is_unique(ranking(second), first);
}

/// A ranked roster is its own ranking.
pub proof fn lemma_ranking_of_ranked(roster: Seq<CharacterView>)
    requires
        is_ranked(roster),
    ensures
        ranking(roster) == roster,
{
    lemma_ranking_is_unique(roster, roster);
}

/// Puts the roster in order: higher initiative first, ties in the order they had. Each
/// character in turn is moved forward past those of lower initiative, so a roster that
/// is in order already costs one comparison a character.
pub(crate) fn rank(roster: &mut Vec<Character>)
    ensures
        is_ranking_of(character_views(final(roster)@), character_views(old(roster)@)),
        final(roster).len() == old(roster).len(),
{
    let mut unranked: Vec<Character> = Vec::new();
    std::mem::swap(roster, &mut unranked);
    let ghost before = unranked@;
    proof {
        assert(character_views(roster@) =~= character_views(before.take(0)));
        assert forall|initiative: nat|
            #![trigger tied_at(character_views(roster@), initiative)]
            tied_at(character_views(roster@), initiative) == tied_at(
                character_views(before.take(0)),
                initiative,
            ) by {}
    }
    for character in it: unranked
        invariant
            it.seq() == before,
            roster.len() == it.index(),
            is_ranking_of(character_views(roster@), character_views(before.take(it.index()))),
    {
        let ghost ranked = character_views(roster@);
        let mut at: usize = roster.len();
        while at > 0 && roster[at - 1].initiative < character.initiative
            invariant
                at <= roster.len(),
                ranked == character_views(roster@),
                forall|i: int|
                    #![trigger ranked[i]]
                    at <= i < ranked.len() ==> ranked[i].initiative < character@.initiative,
            decreases at,
        {
            at -= 1;
        }
        proof {
            let seen = before.take(it.index());
            assert forall|i: int|
                #![trigger ranked[i]]
                0 <= i < at implies ranked[i].initiative >= character@.initiative by {
                assert(ranked[i].initiative >= ranked[at - 1].initiative);
            }
            lemma_insert_ranked(ranked, character_views(seen), character@, at as int);
            assert(before.take(it.index() + 1) =~= seen.push(character));
            assert(character_views(seen.push(character)) =~= character_views(seen).push(
                character@,
            ));
            assert(character_views(roster@.insert(at as int, character)) =~= ranked.insert(
                at as int,
                character@,
            ));
        }
        roster.insert(at, character);
    }
    assert(before.take(before.len() as int) =~= before);
}

} // verus!
