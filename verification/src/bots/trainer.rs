use vstd::prelude::*;

verus! {

/// `g` games of pair `p`.
pub open spec fn repeated(p: (usize, usize), g: nat) -> Seq<(usize, usize)> {
    Seq::new(g, |k: int| p)
}

/// The games of bot `a` against each bot `b < end` other than itself, `g` games each, by
/// `b` ascending.
pub open spec fn row_schedule(a: usize, end: nat, g: nat) -> Seq<(usize, usize)>
    decreases end,
{
    if end == 0 {
        Seq::empty()
    } else {
        let b = (end - 1) as usize;
        row_schedule(a, (end - 1) as nat, g) + if b != a {
            repeated((a, b), g)
        } else {
            Seq::empty()
        }
    }
}

/// The games of every bot `a < end` against every other of the `n` bots, `g` games per
/// ordered pair, by `a` then `b` ascending.
pub open spec fn round_robin(n: nat, end: nat, g: nat) -> Seq<(usize, usize)>
    decreases end,
{
    if end == 0 {
        Seq::empty()
    } else {
        round_robin(n, (end - 1) as nat, g) + row_schedule((end - 1) as usize, n, g)
    }
}

/// `g` rounds of bot `f` against bot `o`, each round a game with `f` as the first bot and
/// one with `o` as the first bot.
pub open spec fn both_ways(f: usize, o: usize, g: nat) -> Seq<(usize, usize)> {
    Seq::new(2 * g, |k: int| if k % 2 == 0 { (f, o) } else { (o, f) })
}

/// The games of bot `f` against each bot `o < end` other than itself, both ways, by `o`
/// ascending.
pub open spec fn focus_schedule(f: usize, end: nat, g: nat) -> Seq<(usize, usize)>
    decreases end,
{
    if end == 0 {
        Seq::empty()
    } else {
        let o = (end - 1) as usize;
        focus_schedule(f, (end - 1) as nat, g) + if o != f {
            both_ways(f, o, g)
        } else {
            Seq::empty()
        }
    }
}

/// The trainer's games between `n_bots` bots, as pairs (first bot, second bot):
/// with a focus bot `f`, its games against every other bot both ways (see
/// `focus_schedule`), and no schedule at all when `f` is not one of the bots; without one,
/// every ordered pair of distinct bots `games_per_pair` times (see `round_robin`).
pub fn match_schedule(n_bots: usize, games_per_pair: u32, focus: Option<usize>) -> (pairs: Option<Vec<(usize, usize)>>)
    requires
        n_bots >= 1,
    ensures
        match focus {
            Some(f) => if f >= n_bots {
                pairs is None
            } else {
                pairs is Some && pairs->0@ == focus_schedule(f, n_bots as nat, games_per_pair as nat)
            },
            None => pairs is Some && pairs->0@ == round_robin(
                n_bots as nat,
                n_bots as nat,
                games_per_pair as nat,
            ),
        },
{
    let ghost g = games_per_pair as nat;
    let mut p: Vec<(usize, usize)> = Vec::new();
    match focus {
        Some(f) => {
            if f >= n_bots {
                return None;
            }
            let mut o: usize = 0;
            while o < n_bots
                invariant
                    o <= n_bots,
                    g == games_per_pair,
                    p@ == focus_schedule(f, o as nat, g),
                decreases n_bots - o,
            {
                let ghost before = p@;
                if o != f {
                    let mut k: u32 = 0;
                    while k < games_per_pair
                        invariant
                            k <= games_per_pair,
                            o != f,
                            g == games_per_pair,
                            p@ == before + both_ways(f, o, k as nat),
                        decreases games_per_pair - k,
                    {
                        p.push((f, o));
                        p.push((o, f));
                        proof {
                            assert(p@ =~= before + both_ways(f, o, (k + 1) as nat));
                        }
                        k += 1;
                    }
                } else {
                    assert(p@ =~= before + Seq::<(usize, usize)>::empty());
                }
                proof {
                    assert(focus_schedule(f, (o + 1) as nat, g) == focus_schedule(f, o as nat, g) + if o
                        != f {
                        both_ways(f, o, g)
                    } else {
                        Seq::empty()
                    });
                }
                o += 1;
            }
            Some(p)
        },
        None => {
            let mut a: usize = 0;
            while a < n_bots
                invariant
                    a <= n_bots,
                    g == games_per_pair,
                    p@ == round_robin(n_bots as nat, a as nat, g),
                decreases n_bots - a,
            {
                let ghost row_start = p@;
                let mut b: usize = 0;
                while b < n_bots
                    invariant
                        b <= n_bots,
                        a < n_bots,
                        g == games_per_pair,
                        p@ == row_start + row_schedule(a, b as nat, g),
                    decreases n_bots - b,
                {
                    let ghost before = p@;
                    if a != b {
                        let mut k: u32 = 0;
                        while k < games_per_pair
                            invariant
                                k <= games_per_pair,
                                g == games_per_pair,
                                p@ == before + repeated((a, b), k as nat),
                            decreases games_per_pair - k,
                        {
                            p.push((a, b));
                            proof {
                                assert(p@ =~= before + repeated((a, b), (k + 1) as nat));
                            }
                            k += 1;
                        }
                    }
                    proof {
                        assert(row_schedule(a, (b + 1) as nat, g) == row_schedule(a, b as nat, g) + if b
                            != a {
                            repeated((a, b), g)
                        } else {
                            Seq::empty()
                        });
                        if a != b {
                            assert(p@ =~= row_start + row_schedule(a, (b + 1) as nat, g));
                        } else {
                            assert(p@ =~= row_start + row_schedule(a, (b + 1) as nat, g));
                        }
                    }
                    b += 1;
                }
                proof {
                    assert(round_robin(n_bots as nat, (a + 1) as nat, g) == round_robin(
                        n_bots as nat,
                        a as nat,
                        g,
                    ) + row_schedule(a, n_bots as nat, g));
                }
                a += 1;
            }
            Some(p)
        },
    }
}

/// The seed of trainer game `game`: `seed + 7919 * game`.
pub fn trainer_game_seed(seed: u64, game: u64) -> (s: u64)
    requires
        seed + 7919 * game <= u64::MAX,
    ensures
        s == seed + 7919 * game,
{
    seed + game * 7919
}

/// The first bot of trainer game `game` moves first exactly in the even games.
pub fn trainer_first_moves_first(game: u64) -> (b: bool)
    ensures
        b == (game % 2 == 0),
{
    game % 2 == 0
}

} // verus!
