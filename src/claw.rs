//! Claw machines: button A moves the claw by (a.x, a.y) and costs 3 tokens,
//! button B moves it by (b.x, b.y) and costs 1; a prize is won by landing
//! exactly on it.
use crate::puzzle::{all_fit, chars_of, numbers_in, parse_numbers};
use vstd::arithmetic::div_mod::{lemma_div_multiples_vanish, lemma_mod_multiples_basic};
use vstd::prelude::*;

verus! {

/// A displacement or a position.
#[derive(Clone, Copy, Debug, PartialEq, Eq, Structural)]
pub struct Button {
    pub x: u64,
    pub y: u64,
}

/// One machine: its two buttons and where its prize lies.
#[derive(Clone, Copy, Debug, PartialEq, Eq, Structural)]
pub struct Game {
    pub a: Button,
    pub b: Button,
    pub prize: Button,
}

/// Coordinates below this bound keep the solver's arithmetic exact.
pub const COORD_LIMIT: u64 = 0x1000_0000_0000_0000;

/// Every coordinate of the machine is below `COORD_LIMIT`.
pub open spec fn small(g: Game) -> bool {
    &&& g.a.x < COORD_LIMIT
    &&& g.a.y < COORD_LIMIT
    &&& g.b.x < COORD_LIMIT
    &&& g.b.y < COORD_LIMIT
    &&& g.prize.x < COORD_LIMIT
    &&& g.prize.y < COORD_LIMIT
}

/// The determinant of the two button moves.
pub open spec fn det(g: Game) -> int {
    g.a.x * g.b.y - g.a.y * g.b.x
}

/// Pressing A `a` times and B `b` times lands on the prize.
pub open spec fn wins(g: Game, a: nat, b: nat) -> bool {
    &&& a * g.a.x + b * g.b.x == g.prize.x
    &&& a * g.a.y + b * g.b.y == g.prize.y
}

/// The tokens the prize costs, found by solving the two equations: `None`
/// when the moves are parallel (a zero determinant), when no whole,
/// non-negative press counts land on the prize, or when a coordinate is not
/// below `COORD_LIMIT`.
pub open spec fn fast_cost(g: Game) -> Option<nat> {
    if small(g) && det(g) != 0 && exists|a: nat, b: nat| wins(g, a, b) {
        let (a, b) = choose|a: nat, b: nat| wins(g, a, b);
        Some(3 * a + b)
    } else {
        None
    }
}

proof fn lemma_cramer(g: Game, a: int, b: int)
    requires
        a * g.a.x + b * g.b.x == g.prize.x,
        a * g.a.y + b * g.b.y == g.prize.y,
    ensures
        g.b.y * g.prize.x - g.b.x * g.prize.y == a * det(g),
        g.a.x * g.prize.y - g.a.y * g.prize.x == b * det(g),
{
    let (ax, ay, bx, by, px, py) = (
        g.a.x as int,
        g.a.y as int,
        g.b.x as int,
        g.b.y as int,
        g.prize.x as int,
        g.prize.y as int,
    );
    assert(by * px - bx * py == a * (ax * by - ay * bx)) by (nonlinear_arith)
        requires
            a * ax + b * bx == px,
            a * ay + b * by == py,
    ;
    assert(ax * py - ay * px == b * (ax * by - ay * bx)) by (nonlinear_arith)
        requires
            a * ax + b * bx == px,
            a * ay + b * by == py,
    ;
}

proof fn lemma_unique(g: Game, a: nat, b: nat, c: nat, d: nat)
    requires
        det(g) != 0,
        wins(g, a, b),
        wins(g, c, d),
    ensures
        a == c && b == d,
{
    lemma_cramer(g, a as int, b as int);
    lemma_cramer(g, c as int, d as int);
    let k = det(g);
    assert(a == c) by (nonlinear_arith)
        requires
            a * k == c * k,
            k != 0,
    ;
    assert(b == d) by (nonlinear_arith)
        requires
            b * k == d * k,
            k != 0,
    ;
}

proof fn lemma_presses_small(g: Game, a: nat, b: nat)
    requires
        small(g),
        det(g) != 0,
        wins(g, a, b),
    ensures
        a < COORD_LIMIT,
        b < COORD_LIMIT,
{
    let (ax, ay, bx, by, px, py) = (g.a.x as int, g.a.y as int, g.b.x as int, g.b.y as int, g.prize.x as int, g.prize.y as int);
    assert(ax > 0 || ay > 0) by (nonlinear_arith)
        requires
            ax * by - ay * bx != 0,
            ax >= 0,
            ay >= 0,
    ;
    assert(bx > 0 || by > 0) by (nonlinear_arith)
        requires
            ax * by - ay * bx != 0,
            bx >= 0,
            by >= 0,
    ;
    assert(a <= px || a <= py) by (nonlinear_arith)
        requires
            a * ax + b * bx == px,
            a * ay + b * by == py,
            ax > 0 || ay > 0,
            a >= 0,
            b >= 0,
            bx >= 0,
            by >= 0,
    ;
    assert(b <= px || b <= py) by (nonlinear_arith)
        requires
            a * ax + b * bx == px,
            a * ay + b * by == py,
            bx > 0 || by > 0,
            a >= 0,
            b >= 0,
            ax >= 0,
            ay >= 0,
    ;
}

/// `a * u + b * v`, or `None` when it exceeds `u128`.
fn dot(a: u128, u: u128, b: u128, v: u128) -> (r: Option<u128>)
    ensures
        a * u + b * v <= u128::MAX ==> r == Some((a * u + b * v) as u128),
        r matches Some(x) ==> x == a * u + b * v,
{
    let p = match a.checked_mul(u) {
        Some(p) => p,
        None => {
            proof {
                assert(a * u <= a * u + b * v) by (nonlinear_arith)
                    requires
                        b >= 0,
                        v >= 0,
                ;
            }
            return None;
        },
    };
    let q = match b.checked_mul(v) {
        Some(q) => q,
        None => {
            proof {
                assert(b * v <= a * u + b * v) by (nonlinear_arith)
                    requires
                        a >= 0,
                        u >= 0,
                ;
            }
            return None;
        },
    };
    p.checked_add(q)
}

/// The tokens the prize of `game` costs, found by Cramer's rule and checked
/// by replaying the presses.
pub fn solve_game_fast(game: &Game) -> (r: Option<u64>)
    ensures
        r is Some <==> fast_cost(*game) is Some,
        r matches Some(c) ==> fast_cost(*game) == Some(c as nat),
{
    let g = *game;
    if !(g.a.x < COORD_LIMIT && g.a.y < COORD_LIMIT && g.b.x < COORD_LIMIT && g.b.y < COORD_LIMIT
        && g.prize.x < COORD_LIMIT && g.prize.y < COORD_LIMIT) {
        return None;
    }
    let (ax, ay, bx, by, px, py) = (
        g.a.x as i128,
        g.a.y as i128,
        g.b.x as i128,
        g.b.y as i128,
        g.prize.x as i128,
        g.prize.y as i128,
    );
    proof {
        let l = COORD_LIMIT as int;
        assert(forall|s: int, t: int| 0 <= s < l && 0 <= t < l ==> 0 <= #[trigger] (s * t) < l * l)
            by (nonlinear_arith);
        assert(l * l == 0x100_0000_0000_0000_0000_0000_0000_0000);
        assert(0 <= ax * by < l * l);
        assert(0 <= ay * bx < l * l);
        assert(0 <= by * px < l * l);
        assert(0 <= bx * py < l * l);
        assert(0 <= ax * py < l * l);
        assert(0 <= ay * px < l * l);
    }
    let dt = ax * by - ay * bx;
    if dt == 0 {
        return None;
    }
    let na = by * px - bx * py;
    let nb = ax * py - ay * px;
    let (d, sa, sb) = if dt < 0 {
        (-dt, -na, -nb)
    } else {
        (dt, na, nb)
    };
    proof {
        if exists|a: nat, b: nat| wins(g, a, b) {
            let (a0, b0) = choose|a: nat, b: nat| wins(g, a, b);
            lemma_cramer(g, a0 as int, b0 as int);
            assert(dt == det(g));
            assert(na == a0 * dt);
            assert(nb == b0 * dt);
            if dt < 0 {
                assert(-na == a0 * (-dt)) by (nonlinear_arith)
                    requires
                        na == a0 * dt,
                ;
                assert(-nb == b0 * (-dt)) by (nonlinear_arith)
                    requires
                        nb == b0 * dt,
                ;
            }
            assert(sa == a0 * d && sb == b0 * d);
            assert(sa >= 0 && sb >= 0) by (nonlinear_arith)
                requires
                    sa == a0 * d,
                    sb == b0 * d,
                    d > 0,
                    a0 >= 0,
                    b0 >= 0,
            ;
        }
    }
    if sa < 0 || sb < 0 {
        return None;
    }
    let (d, sa, sb) = (d as u128, sa as u128, sb as u128);
    if sa % d != 0 || sb % d != 0 {
        proof {
            if exists|a: nat, b: nat| wins(g, a, b) {
                let (a0, b0) = choose|a: nat, b: nat| wins(g, a, b);
                lemma_mod_multiples_basic(a0 as int, d as int);
                lemma_mod_multiples_basic(b0 as int, d as int);
            }
        }
        return None;
    }
    let a = sa / d;
    let b = sb / d;
    proof {
        if exists|a: nat, b: nat| wins(g, a, b) {
            let (a0, b0) = choose|a: nat, b: nat| wins(g, a, b);
            lemma_div_multiples_vanish(a0 as int, d as int);
            lemma_div_multiples_vanish(b0 as int, d as int);
            assert(d * a0 == sa && d * b0 == sb) by (nonlinear_arith)
                requires
                    sa == a0 * d,
                    sb == b0 * d,
            ;
            assert(a == a0 && b == b0);
        }
    }
    let hit_x = dot(a, g.a.x as u128, b, g.b.x as u128);
    let hit_y = dot(a, g.a.y as u128, b, g.b.y as u128);
    if hit_x != Some(g.prize.x as u128) || hit_y != Some(g.prize.y as u128) {
        return None;
    }
    proof {
        assert(wins(g, a as nat, b as nat));
        lemma_presses_small(g, a as nat, b as nat);
        let (a0, b0) = choose|a: nat, b: nat| wins(g, a, b);
        lemma_unique(g, a as nat, b as nat, a0, b0);
    }
    Some((3 * a + b) as u64)
}

/// The machine described by the six numbers of `ns` from `6 * i` on: the
/// moves of A and B, then the prize.
pub open spec fn game_at(ns: Seq<nat>, i: int) -> Game {
    Game {
        a: Button { x: ns[6 * i] as u64, y: ns[6 * i + 1] as u64 },
        b: Button { x: ns[6 * i + 2] as u64, y: ns[6 * i + 3] as u64 },
        prize: Button { x: ns[6 * i + 4] as u64, y: ns[6 * i + 5] as u64 },
    }
}

/// The machines of puzzle text `s`, six numbers each; `None` when a number
/// does not fit in a `u64`. Numbers after the last full group are ignored.
pub open spec fn games_of(s: Seq<char>) -> Option<Seq<Game>> {
    let ns = numbers_in(s);
    if all_fit(ns) {
        Some(Seq::new(ns.len() / 6, |i: int| game_at(ns, i)))
    } else {
        None
    }
}

/// Reads the machines of the puzzle text.
pub fn parse_input(input: &str) -> (r: Option<Vec<Game>>)
    ensures
        r is Some <==> games_of(input@) is Some,
        r matches Some(v) ==> games_of(input@) == Some(v@),
{
    let chars = chars_of(input);
    let ns = match parse_numbers(&chars) {
        Some(v) => v,
        None => {
            return None;
        },
    };
    let ghost n = numbers_in(input@);
    proof {
        assert forall|k: int| 0 <= k < ns.len() implies ns[k] as nat == n[k] by {
            assert(ns@.map_values(|x: u64| x as nat)[k] == n[k]);
        }
    }
    let m = ns.len() / 6;
    let mut games: Vec<Game> = Vec::new();
    let mut i: usize = 0;
    while i < m
        invariant
            m == ns.len() / 6,
            n.len() == ns.len(),
            forall|k: int| 0 <= k < ns.len() ==> ns[k] as nat == n[k],
            i <= m,
            games@ =~= Seq::new(i as nat, |j: int| game_at(n, j)),
        decreases m - i,
    {
        let k = 6 * i;
        games.push(
            Game {
                a: Button { x: ns[k], y: ns[k + 1] },
                b: Button { x: ns[k + 2], y: ns[k + 3] },
                prize: Button { x: ns[k + 4], y: ns[k + 5] },
            },
        );
        i = i + 1;
    }
    Some(games)
}

/// How far the prizes lie in the second part, in both directions.
pub const PRIZE_OFFSET: u64 = 10_000_000_000_000;

/// The machine with its prize moved by `PRIZE_OFFSET` along both axes, if
/// the new position fits in a `u64`.
pub open spec fn moved(g: Game) -> Option<Game> {
    if g.prize.x + PRIZE_OFFSET <= u64::MAX && g.prize.y + PRIZE_OFFSET <= u64::MAX {
        Some(
            Game {
                a: g.a,
                b: g.b,
                prize: Button {
                    x: (g.prize.x + PRIZE_OFFSET) as u64,
                    y: (g.prize.y + PRIZE_OFFSET) as u64,
                },
            },
        )
    } else {
        None
    }
}

/// The tokens the moved prize of `g` costs, 0 when it cannot be won.
pub open spec fn far_cost(g: Game) -> nat {
    match moved(g) {
        Some(h) => match fast_cost(h) {
            Some(c) => c,
            None => 0,
        },
        None => 0,
    }
}

/// The tokens all moved prizes of `gs` that can be won cost together.
pub open spec fn total_far_cost(gs: Seq<Game>) -> nat
    decreases gs.len(),
{
    if gs.len() == 0 {
        0
    } else {
        total_far_cost(gs.drop_last()) + far_cost(gs.last())
    }
}

proof fn lemma_total_grows(gs: Seq<Game>, m: int, n: int)
    requires
        0 <= m <= n <= gs.len(),
    ensures
        total_far_cost(gs.take(m)) <= total_far_cost(gs.take(n)),
    decreases n - m,
{
    if m < n {
        lemma_total_grows(gs, m, n - 1);
        assert(gs.take(n).drop_last() =~= gs.take(n - 1));
    }
}

/// The fewest tokens that win every prize that can be won once the prizes
/// are moved by `PRIZE_OFFSET`; `None` when the text does not parse or the
/// total exceeds `u64`.
pub fn part_two(input: &str) -> (r: Option<u64>)
    ensures
        r == match games_of(input@) {
            Some(gs) => if total_far_cost(gs) <= u64::MAX {
                Some(total_far_cost(gs) as u64)
            } else {
                None::<u64>
            },
            None => None,
        },
{
    let games = match parse_input(input) {
        Some(v) => v,
        None => {
            return None;
        },
    };
    let mut total: u64 = 0;
    let mut i: usize = 0;
    while i < games.len()
        invariant
            i <= games.len(),
            total == total_far_cost(games@.take(i as int)),
            games_of(input@) == Some(games@),
        decreases games.len() - i,
    {
        let g = games[i];
        proof {
            assert(games@.take(i + 1).drop_last() =~= games@.take(i as int));
            lemma_total_grows(games@, i + 1, games.len() as int);
            assert(games@.take(games.len() as int) =~= games@);
        }
        let cost: u64 = if g.prize.x <= u64::MAX - PRIZE_OFFSET && g.prize.y <= u64::MAX - PRIZE_OFFSET {
            let h = Game {
                a: g.a,
                b: g.b,
                prize: Button { x: g.prize.x + PRIZE_OFFSET, y: g.prize.y + PRIZE_OFFSET },
            };
            match solve_game_fast(&h) {
                Some(c) => c,
                None => 0,
            }
        } else {
            0
        };
        proof {
            assert(games@.take(i + 1).last() == g);
            assert(cost == far_cost(g));
        }
        if total > u64::MAX - cost {
            proof {
                assert(total_far_cost(games@.take(i + 1)) == total + cost);
            }
            return None;
        }
        total = total + cost;
        i = i + 1;
    }
    proof {
        assert(games@.take(games.len() as int) =~= games@);
    }
    Some(total)
}

} // verus!
