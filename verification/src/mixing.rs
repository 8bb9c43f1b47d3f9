//! What mixing does to games.
use crate::interleave::Mixture;
use crate::interleave;
use vstd::prelude::*;

verus! {

/// How many bytes the games of a stream have.
pub open spec fn bytes_of(stream: Seq<Seq<u8>>) -> int
    decreases stream.len(),
{
    if stream.len() == 0 {
        0
    } else {
        stream[0].len() + bytes_of(stream.skip(1))
    }
}

/// How often the game `x` is in a stream.
pub open spec fn times(stream: Seq<Seq<u8>>, x: Seq<u8>) -> int
    decreases stream.len(),
{
    if stream.len() == 0 {
        0
    } else {
        times(stream.skip(1), x) + if stream[0] == x {
            1int
        } else {
            0
        }
    }
}

/// How often the game `x` is in the first `n` streams.
pub open spec fn copies(deck: Seq<Seq<Seq<u8>>>, n: int, x: Seq<u8>) -> int
    decreases n,
{
    if n <= 0 {
        0
    } else {
        copies(deck, n - 1, x) + times(deck[n - 1], x)
    }
}

/// Whether no game of a stream is empty.
pub open spec fn solid(stream: Seq<Seq<u8>>) -> bool {
    forall|k: int| 0 <= k < stream.len() ==> (#[trigger] stream[k]).len() > 0
}

/// Whether `m` says how many bytes the streams of `deck` hold.
pub open spec fn measures(m: Mixture, deck: Seq<Seq<Seq<u8>>>) -> bool {
    &&& deck.len() == m.sizes.len()
    &&& forall|i: int|
        0 <= i < deck.len() ==> solid(#[trigger] deck[i]) && bytes_of(deck[i]) == m.sizes[i]
}

/// The streams when the first game of stream `i` was taken. An empty stream goes away, and the last
/// one takes its place.
pub open spec fn taken(deck: Seq<Seq<Seq<u8>>>, i: int) -> Seq<Seq<Seq<u8>>> {
    if deck[i].len() == 1 {
        deck.update(i, deck.last()).drop_last()
    } else {
        deck.update(i, deck[i].skip(1))
    }
}

proof fn lemma_bytes(stream: Seq<Seq<u8>>)
    requires
        solid(stream),
    ensures
        bytes_of(stream) >= 0,
        bytes_of(stream) == 0 <==> stream.len() == 0,
    decreases stream.len(),
{
    if stream.len() > 0 {
        assert(stream[0].len() > 0);
        lemma_solid_rest(stream);
        lemma_bytes(stream.skip(1));
    }
}

proof fn lemma_solid_rest(stream: Seq<Seq<u8>>)
    requires
        solid(stream),
        stream.len() > 0,
    ensures
        solid(stream.skip(1)),
{
    let rest = stream.skip(1);
    assert forall|k: int| 0 <= k < rest.len() implies (#[trigger] rest[k]).len() > 0 by {
        assert(rest[k] == stream[k + 1]);
    }
}

proof fn lemma_copies_update(
    deck: Seq<Seq<Seq<u8>>>,
    i: int,
    stream: Seq<Seq<u8>>,
    n: int,
    x: Seq<u8>,
)
    requires
        0 <= i < deck.len(),
        0 <= n <= deck.len(),
    ensures
        copies(deck.update(i, stream), n, x) == copies(deck, n, x) + if i < n {
            times(stream, x) - times(deck[i], x)
        } else {
            0
        },
    decreases n,
{
    if n > 0 {
        lemma_copies_update(deck, i, stream, n - 1, x);
    }
}

proof fn lemma_copies_prefix(a: Seq<Seq<Seq<u8>>>, b: Seq<Seq<Seq<u8>>>, n: int, x: Seq<u8>)
    requires
        0 <= n <= a.len(),
        n <= b.len(),
        forall|i: int| 0 <= i < n ==> #[trigger] a[i] == b[i],
    ensures
        copies(a, n, x) == copies(b, n, x),
    decreases n,
{
    if n > 0 {
        lemma_copies_prefix(a, b, n - 1, x);
    }
}

/// Taking the first game of a stream never crosses the end of the stream, and the sizes go on being
/// those of the streams.
pub proof fn law_games_fit_their_streams(m: Mixture, deck: Seq<Seq<Seq<u8>>>, i: int)
    requires
        m.wf(),
        measures(m, deck),
        0 <= i < deck.len(),
    ensures
        deck[i].len() > 0,
        0 < deck[i][0].len() <= m.sizes[i],
        measures(m.after(i, deck[i][0].len() as int), taken(deck, i)),
        m.after(i, deck[i][0].len() as int).wf(),
{
    let n = deck.len() as int;
    let stream = deck[i];
    assert(m.sizes[i] > 0);
    lemma_bytes(stream);
    assert(stream[0].len() > 0);
    lemma_solid_rest(stream);
    let rest = stream.skip(1);
    lemma_bytes(rest);
    let size = stream[0].len() as int;
    interleave::law_mixing_keeps_sizes(m, i, size);
    let after = m.after(i, size);
    let left = taken(deck, i);
    assert forall|k: int| 0 <= k < left.len() implies solid(#[trigger] left[k]) && bytes_of(left[k])
        == after.sizes[k] by {
        assert(solid(deck[k]) && bytes_of(deck[k]) == m.sizes[k]);
        assert(solid(deck[n - 1]) && bytes_of(deck[n - 1]) == m.sizes[n - 1]);
    }
}

/// Mixing loses no game and makes none: a game that is taken was there once more before.
pub proof fn law_mixing_keeps_games(deck: Seq<Seq<Seq<u8>>>, i: int, x: Seq<u8>)
    requires
        0 <= i < deck.len(),
        deck[i].len() > 0,
    ensures
        copies(deck, deck.len() as int, x) == copies(
            taken(deck, i),
            taken(deck, i).len() as int,
            x,
        ) + if deck[i][0] == x {
            1int
        } else {
            0
        },
{
    let n = deck.len() as int;
    let stream = deck[i];
    if stream.len() == 1 {
        let moved = deck.update(i, deck.last());
        let left = taken(deck, i);
        lemma_copies_update(deck, i, deck.last(), n, x);
        lemma_copies_prefix(left, moved, n - 1, x);
        assert(moved[n - 1] == deck.last());
        assert(stream.skip(1).len() == 0);
        assert(times(stream.skip(1), x) == 0);
    } else {
        lemma_copies_update(deck, i, stream.skip(1), n, x);
    }
}

/// When nothing remains, all games have been taken.
pub proof fn law_mixing_takes_all(m: Mixture, deck: Seq<Seq<Seq<u8>>>, x: Seq<u8>)
    requires
        m.wf(),
        measures(m, deck),
        m.remaining == 0,
    ensures
        copies(deck, deck.len() as int, x) == 0,
{
    interleave::law_nothing_left(m);
}

/// The streams after the first `n` of `picks`, each of which takes a game from a stream.
pub open spec fn left(deck: Seq<Seq<Seq<u8>>>, picks: Seq<int>, n: int) -> Seq<Seq<Seq<u8>>>
    decreases n,
{
    if n <= 0 {
        deck
    } else {
        taken(left(deck, picks, n - 1), picks[n - 1])
    }
}

/// The game that pick `k` takes.
pub open spec fn game_at(deck: Seq<Seq<Seq<u8>>>, picks: Seq<int>, k: int) -> Seq<u8> {
    left(deck, picks, k)[picks[k]][0]
}

/// The games that the first `n` of `picks` take, in their order.
pub open spec fn mixed(deck: Seq<Seq<Seq<u8>>>, picks: Seq<int>, n: int) -> Seq<Seq<u8>> {
    Seq::new(n as nat, |k: int| game_at(deck, picks, k))
}

/// What a mixer knows after the first `n` of `picks`.
pub open spec fn known(
    m: Mixture,
    deck: Seq<Seq<Seq<u8>>>,
    picks: Seq<int>,
    n: int,
) -> Mixture
    decreases n,
{
    if n <= 0 {
        m
    } else {
        known(m, deck, picks, n - 1).after(
            picks[n - 1],
            game_at(deck, picks, n - 1).len() as int,
        )
    }
}

/// Whether every pick names a stream that is there.
pub open spec fn fair(deck: Seq<Seq<Seq<u8>>>, picks: Seq<int>) -> bool {
    forall|k: int|
        0 <= k < picks.len() ==> 0 <= #[trigger] picks[k] < left(deck, picks, k).len()
}

proof fn lemma_run(m: Mixture, deck: Seq<Seq<Seq<u8>>>, picks: Seq<int>, n: int)
    requires
        m.wf(),
        measures(m, deck),
        fair(deck, picks),
        0 <= n <= picks.len(),
    ensures
        known(m, deck, picks, n).wf(),
        measures(known(m, deck, picks, n), left(deck, picks, n)),
    decreases n,
{
    if n > 0 {
        lemma_run(m, deck, picks, n - 1);
        assert(0 <= picks[n - 1] < left(deck, picks, n - 1).len());
        law_games_fit_their_streams(
            known(m, deck, picks, n - 1),
            left(deck, picks, n - 1),
            picks[n - 1],
        );
    }
}

proof fn lemma_times_push(s: Seq<Seq<u8>>, g: Seq<u8>, x: Seq<u8>)
    ensures
        times(s.push(g), x) == times(s, x) + if g == x {
            1int
        } else {
            0
        },
    decreases s.len(),
{
    let t = s.push(g);
    if s.len() > 0 {
        assert(t.skip(1) =~= s.skip(1).push(g));
        assert(t[0] == s[0]);
        lemma_times_push(s.skip(1), g, x);
    } else {
        assert(t.skip(1).len() == 0);
        assert(times(t.skip(1), x) == 0);
    }
}

/// Whichever streams are picked, every game is as often in what has been mixed and what is left as
/// it was in the streams.
pub proof fn law_no_game_is_lost(
    m: Mixture,
    deck: Seq<Seq<Seq<u8>>>,
    picks: Seq<int>,
    n: int,
    x: Seq<u8>,
)
    requires
        m.wf(),
        measures(m, deck),
        fair(deck, picks),
        0 <= n <= picks.len(),
    ensures
        copies(deck, deck.len() as int, x) == times(mixed(deck, picks, n), x) + copies(
            left(deck, picks, n),
            left(deck, picks, n).len() as int,
            x,
        ),
    decreases n,
{
    if n > 0 {
        law_no_game_is_lost(m, deck, picks, n - 1, x);
        lemma_run(m, deck, picks, n - 1);
        let before = left(deck, picks, n - 1);
        let i = picks[n - 1];
        assert(0 <= i < before.len());
        law_games_fit_their_streams(known(m, deck, picks, n - 1), before, i);
        law_mixing_keeps_games(before, i, x);
        assert(mixed(deck, picks, n) =~= mixed(deck, picks, n - 1).push(
            game_at(deck, picks, n - 1),
        ));
        lemma_times_push(mixed(deck, picks, n - 1), game_at(deck, picks, n - 1), x);
    }
}

/// When mixing has come to its end, every game is as often in the output as it was in the streams.
pub proof fn law_output_has_all_games(
    m: Mixture,
    deck: Seq<Seq<Seq<u8>>>,
    picks: Seq<int>,
    x: Seq<u8>,
)
    requires
        m.wf(),
        measures(m, deck),
        fair(deck, picks),
        known(m, deck, picks, picks.len() as int).remaining == 0,
    ensures
        times(mixed(deck, picks, picks.len() as int), x) == copies(deck, deck.len() as int, x),
{
    let n = picks.len() as int;
    law_no_game_is_lost(m, deck, picks, n, x);
    lemma_run(m, deck, picks, n);
    law_mixing_takes_all(known(m, deck, picks, n), left(deck, picks, n), x);
}

/// Which of the streams of `deck` each stream is that is left after the first `n` of `picks`.
pub open spec fn origins(deck: Seq<Seq<Seq<u8>>>, picks: Seq<int>, n: int) -> Seq<int>
    decreases n,
{
    if n <= 0 {
        Seq::new(deck.len(), |i: int| i)
    } else {
        let before = origins(deck, picks, n - 1);
        let i = picks[n - 1];
        if left(deck, picks, n - 1)[i].len() == 1 {
            before.update(i, before.last()).drop_last()
        } else {
            before
        }
    }
}

/// The games that the first `n` of `picks` take from stream `s` of `deck`, in the order of the
/// output.
pub open spec fn mixed_from(
    deck: Seq<Seq<Seq<u8>>>,
    picks: Seq<int>,
    n: int,
    s: int,
) -> Seq<Seq<u8>>
    decreases n,
{
    if n <= 0 {
        seq![]
    } else {
        let before = mixed_from(deck, picks, n - 1, s);
        if origins(deck, picks, n - 1)[picks[n - 1]] == s {
            before.push(game_at(deck, picks, n - 1))
        } else {
            before
        }
    }
}

/// Whether the streams that are left are what has not been taken of the streams of `deck`: each is
/// the rest of its stream, and a stream that is not left has been taken whole.
spec fn followed(deck: Seq<Seq<Seq<u8>>>, picks: Seq<int>, n: int) -> bool {
    let rest = left(deck, picks, n);
    let ids = origins(deck, picks, n);
    &&& ids.len() == rest.len()
    &&& forall|i: int|
        0 <= i < ids.len() ==> 0 <= #[trigger] ids[i] < deck.len() && rest[i] == deck[ids[i]].skip(
            mixed_from(deck, picks, n, ids[i]).len() as int,
        )
    &&& forall|i: int, j: int| 0 <= i < j < ids.len() ==> #[trigger] ids[i] != #[trigger] ids[j]
    &&& forall|s: int|
        0 <= s < deck.len() ==> {
            let own = #[trigger] mixed_from(deck, picks, n, s);
            &&& own.len() <= deck[s].len()
            &&& own == deck[s].take(own.len() as int)
            &&& !ids.contains(s) ==> own.len() == deck[s].len()
        }
}

proof fn lemma_followed_start(deck: Seq<Seq<Seq<u8>>>, picks: Seq<int>)
    ensures
        followed(deck, picks, 0),
{
    let ids = origins(deck, picks, 0);
    assert forall|i: int| 0 <= i < ids.len() implies 0 <= #[trigger] ids[i] < deck.len() && left(
        deck,
        picks,
        0,
    )[i] == deck[ids[i]].skip(mixed_from(deck, picks, 0, ids[i]).len() as int) by {
        assert(deck[i].skip(0) =~= deck[i]);
    }
    assert forall|s: int| 0 <= s < deck.len() implies {
        let own = #[trigger] mixed_from(deck, picks, 0, s);
        &&& own.len() <= deck[s].len()
        &&& own == deck[s].take(own.len() as int)
        &&& !ids.contains(s) ==> own.len() == deck[s].len()
    } by {
        assert(ids[s] == s);
        assert(deck[s].take(0) =~= seq![]);
    }
}

proof fn lemma_followed_step(deck: Seq<Seq<Seq<u8>>>, picks: Seq<int>, n: int)
    requires
        n > 0,
        followed(deck, picks, n - 1),
        0 <= picks[n - 1] < left(deck, picks, n - 1).len(),
        left(deck, picks, n - 1)[picks[n - 1]].len() > 0,
    ensures
        followed(deck, picks, n),
{
    let old_rest = left(deck, picks, n - 1);
    let old_ids = origins(deck, picks, n - 1);
    let rest = left(deck, picks, n);
    let ids = origins(deck, picks, n);
    let p = picks[n - 1];
    let t = old_ids[p];
    let whole = deck[t];
    let had = mixed_from(deck, picks, n - 1, t);
    let now = mixed_from(deck, picks, n, t);
    let last = old_ids.len() - 1;
    assert(old_rest[p] == whole.skip(had.len() as int));
    assert(game_at(deck, picks, n - 1) == whole[had.len() as int]);
    assert(now =~= whole.take(now.len() as int));
    assert(old_rest[p].skip(1) =~= whole.skip(now.len() as int));
    assert forall|s: int| s != t implies #[trigger] mixed_from(deck, picks, n, s) == mixed_from(
        deck,
        picks,
        n - 1,
        s,
    ) by {}
    let gone = old_rest[p].len() == 1;
    assert forall|i: int| 0 <= i < ids.len() implies 0 <= #[trigger] ids[i] < deck.len() && rest[i]
        == deck[ids[i]].skip(mixed_from(deck, picks, n, ids[i]).len() as int) by {
        let from = if gone && i == p {
            last
        } else {
            i
        };
        assert(ids[i] == old_ids[from]);
        if from != p {
            assert(old_ids[from] != t) by {
                if from < p {
                    assert(old_ids[from] != old_ids[p]);
                } else {
                    assert(old_ids[p] != old_ids[from]);
                }
            }
            assert(rest[i] == old_rest[from]);
        }
    }
    assert forall|i: int, j: int| 0 <= i < j < ids.len() implies #[trigger] ids[i]
        != #[trigger] ids[j] by {
        let a = if gone && i == p {
            last
        } else {
            i
        };
        let b = if gone && j == p {
            last
        } else {
            j
        };
        assert(ids[i] == old_ids[a] && ids[j] == old_ids[b]);
        if a < b {
            assert(old_ids[a] != old_ids[b]);
        } else {
            assert(old_ids[b] != old_ids[a]);
        }
    }
    assert forall|s: int| 0 <= s < deck.len() implies {
        let own = #[trigger] mixed_from(deck, picks, n, s);
        &&& own.len() <= deck[s].len()
        &&& own == deck[s].take(own.len() as int)
        &&& !ids.contains(s) ==> own.len() == deck[s].len()
    } by {
        let before = mixed_from(deck, picks, n - 1, s);
        assert(before.len() <= deck[s].len());
        if s == t {
            if !gone {
                assert(ids[p] == s);
            }
        } else if old_ids.contains(s) {
            let i = old_ids.index_of(s);
            assert(old_ids[i] == s);
            if gone && i == last {
                assert(p < last);
                assert(ids[p] == s);
            } else {
                assert(ids[i] == s);
            }
        }
    }
}

proof fn lemma_followed(m: Mixture, deck: Seq<Seq<Seq<u8>>>, picks: Seq<int>, n: int)
    requires
        m.wf(),
        measures(m, deck),
        fair(deck, picks),
        0 <= n <= picks.len(),
    ensures
        followed(deck, picks, n),
    decreases n,
{
    if n > 0 {
        lemma_followed(m, deck, picks, n - 1);
        lemma_run(m, deck, picks, n - 1);
        let before = left(deck, picks, n - 1);
        assert(0 <= picks[n - 1] < before.len());
        law_games_fit_their_streams(known(m, deck, picks, n - 1), before, picks[n - 1]);
        lemma_followed_step(deck, picks, n);
    } else {
        lemma_followed_start(deck, picks);
    }
}

/// The games of a stream keep their order: what the picks that fall on it have taken so far are its
/// first games, and when mixing has come to its end, all of them.
pub proof fn law_streams_keep_their_order(
    m: Mixture,
    deck: Seq<Seq<Seq<u8>>>,
    picks: Seq<int>,
    n: int,
    s: int,
)
    requires
        m.wf(),
        measures(m, deck),
        fair(deck, picks),
        0 <= n <= picks.len(),
        0 <= s < deck.len(),
    ensures
        ({
            let own = mixed_from(deck, picks, n, s);
            &&& own.len() <= deck[s].len()
            &&& own == deck[s].take(own.len() as int)
            &&& known(m, deck, picks, n).remaining == 0 ==> own == deck[s]
        }),
{
    lemma_followed(m, deck, picks, n);
    lemma_run(m, deck, picks, n);
    let own = mixed_from(deck, picks, n, s);
    assert(own.len() <= deck[s].len());
    if known(m, deck, picks, n).remaining == 0 {
        interleave::law_nothing_left(known(m, deck, picks, n));
        assert(!origins(deck, picks, n).contains(s));
        assert(deck[s].take(deck[s].len() as int) =~= deck[s]);
    }
}

/// Every pick counts as one game more.
pub proof fn law_games_are_counted(
    m: Mixture,
    deck: Seq<Seq<Seq<u8>>>,
    picks: Seq<int>,
    n: int,
)
    requires
        0 <= n <= picks.len(),
    ensures
        known(m, deck, picks, n).games == m.games + mixed(deck, picks, n).len(),
    decreases n,
{
    if n > 0 {
        law_games_are_counted(m, deck, picks, n - 1);
    }
}

} // verus!
