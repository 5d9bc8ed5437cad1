//! Coordinate codec: the pure, mutually inverse mapping between an
//! N-dimensional cell coordinate and its flat storage index, for a chunk
//! whose sides all have the same width. The scheme is row-major with
//! component 0 varying fastest: `index = c[0] + c[1]*w + c[2]*w^2 + ...`.

use vstd::prelude::*;
use vstd::arithmetic::power::pow;
use vstd::arithmetic::div_mod::{
    lemma_fundamental_div_mod, lemma_mod_division_less_than_divisor, lemma_div_pos_is_pos,
    lemma_multiply_divide_lt, lemma_div_multiples_vanish_fancy, lemma_mod_multiples_vanish,
    lemma_small_mod,
};
use vstd::arithmetic::power::{lemma_pow_increases, lemma_pow_positive};

verus! {

/// True when every component of the coordinate `c` lies in `[0, width)`.
pub open spec fn coord_in_bounds(c: Seq<usize>, width: usize) -> bool {
    forall|k: int| 0 <= k < c.len() ==> c[k] < width
}

/// Flat storage index of coordinate `c` for side width `width`, in the
/// row-major scheme where component 0 varies fastest.
pub open spec fn lin_index(c: Seq<usize>, width: usize) -> int
    decreases c.len(),
{
    if c.len() == 0 {
        0
    } else {
        c[0] as int + (width as int) * lin_index(c.skip(1), width)
    }
}

/// The `n`-dimensional coordinate whose flat storage index is `i`, for
/// side width `width`.
pub open spec fn delin_coord(i: int, width: usize, n: nat) -> Seq<usize>
    decreases n,
{
    if n == 0 {
        Seq::empty()
    } else {
        seq![(i % (width as int)) as usize] + delin_coord(i / (width as int), width, (n - 1) as nat)
    }
}

/// An in-bounds coordinate linearizes into `[0, width^n)`.
pub proof fn lemma_lin_index_bounds(c: Seq<usize>, width: usize)
    requires
        width >= 1,
        coord_in_bounds(c, width),
    ensures
        0 <= lin_index(c, width) < pow(width as int, c.len()),
    decreases c.len(),
{
    let w = width as int;
    reveal(pow);
    if c.len() == 0 {
        assert(pow(w, 0) == 1);
    } else {
        assert(coord_in_bounds(c.skip(1), width)) by {
            assert(forall|k: int| 0 <= k < c.skip(1).len() ==> c.skip(1)[k] == c[k + 1]);
        }
        lemma_lin_index_bounds(c.skip(1), width);
        let l = lin_index(c.skip(1), width);
        let p = pow(w, (c.len() - 1) as nat);
        assert(pow(w, c.len()) == w * p);
        assert(c[0] + w * l < w * p) by (nonlinear_arith)
            requires
                0 <= c[0] < w,
                0 <= l < p,
        ;
        assert(0 <= c[0] + w * l) by (nonlinear_arith)
            requires
                0 <= c[0],
                0 <= l,
                w >= 1,
        ;
    }
}

/// Delinearization of a nonnegative index yields an in-bounds coordinate
/// of the requested dimension.
pub proof fn lemma_delin_coord_wf(i: int, width: usize, n: nat)
    requires
        width >= 1,
        i >= 0,
    ensures
        delin_coord(i, width, n).len() == n,
        coord_in_bounds(delin_coord(i, width, n), width),
    decreases n,
{
    let w = width as int;
    if n > 0 {
        lemma_mod_division_less_than_divisor(i, w);
        lemma_div_pos_is_pos(i, w);
        lemma_delin_coord_wf(i / w, width, (n - 1) as nat);
        let head = seq![(i % w) as usize];
        let tail = delin_coord(i / w, width, (n - 1) as nat);
        assert(forall|k: int|
            0 <= k < (head + tail).len() ==> (head + tail)[k] == if k == 0 {
                head[0]
            } else {
                tail[k - 1]
            });
    }
}

/// One direction of the bijection: linearizing the coordinate of index
/// `i` gives back `i`, for every index in `[0, width^n)`.
pub proof fn lemma_lin_of_delin(i: int, width: usize, n: nat)
    requires
        width >= 1,
        0 <= i < pow(width as int, n),
    ensures
        lin_index(delin_coord(i, width, n), width) == i,
    decreases n,
{
    let w = width as int;
    reveal(pow);
    if n == 0 {
        assert(pow(w, 0) == 1);
    } else {
        let p = pow(w, (n - 1) as nat);
        assert(pow(w, n) == w * p);
        lemma_mod_division_less_than_divisor(i, w);
        lemma_div_pos_is_pos(i, w);
        lemma_pow_positive(w, (n - 1) as nat);
        lemma_multiply_divide_lt(i, w, p);
        lemma_lin_of_delin(i / w, width, (n - 1) as nat);
        let head = seq![(i % w) as usize];
        let tail = delin_coord(i / w, width, (n - 1) as nat);
        assert((head + tail).skip(1) =~= tail);
        assert(lin_index(head + tail, width) == i % w + w * (i / w));
        lemma_fundamental_div_mod(i, w);
    }
}

/// The other direction of the bijection: delinearizing the index of an
/// in-bounds coordinate gives back that coordinate.
pub proof fn lemma_delin_of_lin(c: Seq<usize>, width: usize)
    requires
        width >= 1,
        coord_in_bounds(c, width),
    ensures
        delin_coord(lin_index(c, width), width, c.len()) == c,
    decreases c.len(),
{
    let w = width as int;
    if c.len() == 0 {
        assert(delin_coord(lin_index(c, width), width, 0) =~= c);
    } else {
        assert(coord_in_bounds(c.skip(1), width)) by {
            assert(forall|k: int| 0 <= k < c.skip(1).len() ==> c.skip(1)[k] == c[k + 1]);
        }
        lemma_lin_index_bounds(c.skip(1), width);
        let l = lin_index(c.skip(1), width);
        let i = lin_index(c, width);
        assert(i == c[0] + w * l);
        lemma_div_multiples_vanish_fancy(l, c[0] as int, w);
        assert(i / w == l);
        lemma_mod_multiples_vanish(l, c[0] as int, w);
        lemma_small_mod(c[0] as nat, width as nat);
        assert(i % w == c[0]);
        lemma_delin_of_lin(c.skip(1), width);
        let head = seq![(i % w) as usize];
        assert(head + c.skip(1) =~= c);
    }
}

/// Distinct indices in `[0, width^n)` delinearize to distinct
/// coordinates, so a scan over all indices visits every coordinate at
/// most once.
pub proof fn lemma_delin_injective(i: int, j: int, width: usize, n: nat)
    requires
        width >= 1,
        0 <= i < pow(width as int, n),
        0 <= j < pow(width as int, n),
        i != j,
    ensures
        delin_coord(i, width, n) != delin_coord(j, width, n),
{
    if delin_coord(i, width, n) == delin_coord(j, width, n) {
        lemma_lin_of_delin(i, width, n);
        lemma_lin_of_delin(j, width, n);
    }
}

/// In two dimensions the codec takes the closed form `x = i % width`,
/// `z = i / width`.
pub proof fn lemma_delin_coord_2d(i: int, width: usize)
    requires
        width >= 1,
        0 <= i,
        i < (width as int) * (width as int),
    ensures
        delin_coord(i, width, 2).len() == 2,
        delin_coord(i, width, 2)[0] == i % (width as int),
        delin_coord(i, width, 2)[1] == i / (width as int),
{
    let w = width as int;
    reveal_with_fuel(delin_coord, 3);
    lemma_mod_division_less_than_divisor(i, w);
    lemma_div_pos_is_pos(i, w);
    lemma_multiply_divide_lt(i, w, w);
    lemma_small_mod((i / w) as nat, width as nat);
    let head = seq![(i % w) as usize];
    let tail = seq![((i / w) % w) as usize] + delin_coord((i / w) / w, width, 0);
    assert(delin_coord(i, width, 2) == head + tail);
    assert((head + tail)[0] == i % w);
    assert((head + tail)[1] == tail[0]);
}

/// Law: one pass over the flat indices `0 .. width^n`, as the chunk
/// iterator makes, visits every in-bounds `n`-dimensional coordinate
/// exactly once — each index yields an in-bounds coordinate, every
/// in-bounds coordinate is yielded (at its own linearization), and no
/// two indices yield the same coordinate.
pub proof fn lemma_iteration_covers_grid(width: usize, n: nat)
    requires
        width >= 1,
    ensures
        forall|i: int|
            0 <= i < pow(width as int, n) ==> (#[trigger] delin_coord(i, width, n)).len() == n
                && coord_in_bounds(delin_coord(i, width, n), width),
        forall|c: Seq<usize>|
            c.len() == n && coord_in_bounds(c, width) ==> 0 <= #[trigger] lin_index(c, width)
                < pow(width as int, n) && delin_coord(lin_index(c, width), width, n) == c,
        forall|i: int, j: int|
            0 <= i < j < pow(width as int, n) ==> delin_coord(i, width, n) != delin_coord(
                j,
                width,
                n,
            ),
{
    assert forall|i: int| 0 <= i < pow(width as int, n) implies (#[trigger] delin_coord(
        i,
        width,
        n,
    )).len() == n && coord_in_bounds(delin_coord(i, width, n), width) by {
        lemma_delin_coord_wf(i, width, n);
    }
    assert forall|c: Seq<usize>| c.len() == n && coord_in_bounds(c, width) implies 0
        <= #[trigger] lin_index(c, width) < pow(width as int, n) && delin_coord(
        lin_index(c, width),
        width,
        n,
    ) == c by {
        lemma_lin_index_bounds(c, width);
        lemma_delin_of_lin(c, width);
    }
    assert forall|i: int, j: int| 0 <= i < j < pow(width as int, n) implies delin_coord(
        i,
        width,
        n,
    ) != delin_coord(j, width, n) by {
        lemma_delin_injective(i, j, width, n);
    }
}

/// Computes the flat storage index of `c`, by Horner evaluation from the
/// slowest-varying component down.
pub fn linearize(c: &Vec<usize>, width: usize) -> (idx: usize)
    requires
        width >= 1,
        coord_in_bounds(c@, width),
        pow(width as int, c@.len()) <= usize::MAX,
    ensures
        idx == lin_index(c@, width),
        idx < pow(width as int, c@.len()),
{
    let n = c.len();
    let mut idx: usize = 0;
    let mut k: usize = n;
    proof {
        reveal(pow);
        assert(c@.skip(n as int) =~= Seq::<usize>::empty());
    }
    while k > 0
        invariant
            k <= n,
            n == c@.len(),
            width >= 1,
            coord_in_bounds(c@, width),
            pow(width as int, c@.len()) <= usize::MAX,
            idx == lin_index(c@.skip(k as int), width),
            idx < pow(width as int, (n - k) as nat),
        decreases k,
    {
        k = k - 1;
        proof {
            reveal(pow);
            let w = width as int;
            let rest = c@.skip(k as int);
            assert(rest.skip(1) =~= c@.skip(k + 1));
            assert(rest[0] == c@[k as int]);
            let l = lin_index(c@.skip(k + 1), width);
            let p = pow(w, (n - k - 1) as nat);
            assert(pow(w, (n - k) as nat) == w * p);
            assert(c@[k as int] + w * l < w * p) by (nonlinear_arith)
                requires
                    0 <= c@[k as int] < w,
                    0 <= l < p,
            ;
            lemma_pow_increases(width as nat, (n - k) as nat, n as nat);
            lemma_lin_index_bounds(rest, width);
        }
        idx = idx * width + c[k];
    }
    proof {
        assert(c@.skip(0) =~= c@);
    }
    idx
}

/// Computes the `dims`-dimensional coordinate of the flat storage index
/// `index`, by repeated division by the width.
pub fn delinearize(index: usize, width: usize, dims: usize) -> (c: Vec<usize>)
    requires
        width >= 1,
        index < pow(width as int, dims as nat),
    ensures
        c@ == delin_coord(index as int, width, dims as nat),
        c@.len() == dims,
        coord_in_bounds(c@, width),
{
    let mut c: Vec<usize> = Vec::new();
    let mut rem: usize = index;
    let mut k: usize = 0;
    while k < dims
        invariant
            k <= dims,
            width >= 1,
            c@.len() == k,
            rem >= 0,
            delin_coord(index as int, width, dims as nat) == c@ + delin_coord(
                rem as int,
                width,
                (dims - k) as nat,
            ),
        decreases dims - k,
    {
        let digit = rem % width;
        let rest = rem / width;
        proof {
            let w = width as int;
            let tail = delin_coord(rest as int, width, (dims - k - 1) as nat);
            assert(delin_coord(rem as int, width, (dims - k) as nat) == seq![digit] + tail);
            assert((c@ + (seq![digit] + tail)) =~= (c@.push(digit) + tail));
        }
        c.push(digit);
        rem = rest;
        k = k + 1;
    }
    proof {
        assert(delin_coord(rem as int, width, 0) =~= Seq::<usize>::empty());
        assert(c@ + Seq::<usize>::empty() =~= c@);
        lemma_delin_coord_wf(index as int, width, dims as nat);
    }
    c
}

} // verus!
