//! The search: every way to pack the candidate pieces into the cube until
//! no further piece fits, each kept once up to rotation.

use vstd::prelude::*;
use crate::bits::{
    lemma_bit_or_and, lemma_disjoint_from_union, lemma_disjoint_union_grows, MASK_LIMIT,
};
use crate::cage::{
    lemma_canonical_among, lemma_canonical_idempotent, lemma_canonical_is_least,
    lemma_mask_order_total, mask_order, Cage, CageView,
};
use crate::coordinates::{all_rotations, holds_matrix, is_rotation_group, Coordinate, Rotation};
use crate::hitmap::{
    lemma_rotate_inverse, lemma_rotate_keeps_cells, lemma_rotate_overlaps, lemma_rotate_product,
    lemma_hitmap_extensional, lemma_moved_has, lemma_rotated_has, point_at, shift_index, Hitmap,
    HitmapBuilder,
};
use crate::matrix::{
    identity, is_rotation, lemma_identity_neutral, lemma_transpose_inverts, mat_mul, transpose,
    Mat3, Point,
};
use crate::rotation_group::lemma_rotations_closed;

verus! {

/// The first base piece: the corner cell (-1,-1,-1), the two cells beyond it
/// along x and the cell above the far one, the cell above the corner, and
/// the two cells beyond the corner along y. These are the cells 0, 1, 2, 11,
/// 9, 3 and 6.
pub open spec fn first_piece() -> Hitmap {
    Hitmap(0xA4F)
}

/// The second base piece: the first one moved up by one cell along z.
pub open spec fn second_piece() -> Hitmap {
    first_piece().shifted(Point { x: 0, y: 0, z: 1 })
}

/// `piece` is a base piece turned by a proper rotation.
pub open spec fn is_orientation(piece: Hitmap) -> bool {
    exists|m: Mat3|
        is_rotation(m) && (piece == #[trigger] first_piece().rotated(m) || piece
            == second_piece().rotated(m))
}

/// What a set of candidate pieces has to be: no piece twice, every piece a
/// mask of bits 0 to 26 with a cell in it, and with each piece all its
/// turns by proper rotations.
pub open spec fn is_piece_set(pieces: Seq<Hitmap>) -> bool {
    &&& pieces.no_duplicates()
    &&& forall|k: int|
        0 <= k < pieces.len() ==> (#[trigger] pieces[k]).wf() && pieces[k].0 != 0
    &&& forall|k: int, m: Mat3|
        0 <= k < pieces.len() && is_rotation(m) ==> pieces.contains(
            #[trigger] pieces[k].rotated(m),
        )
}

/// No piece of `pieces` fits into `cage`: the packing is maximal.
pub open spec fn is_terminal(cage: CageView, pieces: Seq<Hitmap>) -> bool {
    forall|k: int| 0 <= k < pieces.len() ==> !cage.fits(#[trigger] pieces[k])
}

/// The pieces of `path` can be packed into `cage` one after another: each is
/// one of `pieces` and fits when its turn comes.
pub open spec fn packable(cage: CageView, path: Seq<Hitmap>, pieces: Seq<Hitmap>) -> bool
    decreases path.len(),
{
    path.len() == 0 || (pieces.contains(path[0]) && cage.fits(path[0]) && packable(
        cage.with_piece(path[0]),
        path.drop_first(),
        pieces,
    ))
}

/// The cage that packing the pieces of `path` into `cage`, one after
/// another, gives.
pub open spec fn packed(cage: CageView, path: Seq<Hitmap>) -> CageView
    decreases path.len(),
{
    if path.len() == 0 {
        cage
    } else {
        packed(cage.with_piece(path[0]), path.drop_first())
    }
}

/// `end` is a maximal packing that packing pieces into `cage` leads to.
pub open spec fn grows_to(cage: CageView, end: CageView, pieces: Seq<Hitmap>) -> bool {
    exists|path: Seq<Hitmap>|
        packable(cage, path, pieces) && #[trigger] packed(cage, path) == end && is_terminal(
            end,
            pieces,
        )
}

/// `outcome` is the representative of a maximal packing that packing pieces
/// into `cage` leads to.
pub open spec fn is_outcome(
    cage: CageView,
    outcome: CageView,
    pieces: Seq<Hitmap>,
    rotations: Seq<Rotation>,
) -> bool {
    exists|end: CageView|
        grows_to(cage, end, pieces) && outcome == #[trigger] end.canonical(rotations)
}

/// One of `cages` has the value `cage`.
pub open spec fn holds_cage(cages: Seq<Cage>, cage: CageView) -> bool {
    exists|k: int| 0 <= k < cages.len() && (#[trigger] cages[k])@ == cage
}

/// No two of `cages` have the same value.
pub open spec fn distinct_cages(cages: Seq<Cage>) -> bool {
    forall|j: int, k: int|
        0 <= j < k < cages.len() ==> (#[trigger] cages[j])@ != (#[trigger] cages[k])@
}

/// The values of the cages.
spec fn cage_views(cages: Seq<Cage>) -> Seq<CageView> {
    cages.map_values(|cage: Cage| cage@)
}

/// The cages that packing one of the first `n` of `pieces` into `cage`
/// gives, in the order of the pieces.
spec fn children(cage: CageView, pieces: Seq<Hitmap>, n: int) -> Seq<CageView>
    decreases n,
{
    if n <= 0 {
        Seq::empty()
    } else if cage.fits(pieces[n - 1]) {
        children(cage, pieces, n - 1).push(cage.with_piece(pieces[n - 1]))
    } else {
        children(cage, pieces, n - 1)
    }
}

/// `child` is `cage` with one of the first `n` of `pieces`, one that fits.
spec fn is_child(cage: CageView, pieces: Seq<Hitmap>, n: int, child: CageView) -> bool {
    exists|k: int|
        0 <= k < n && cage.fits(#[trigger] pieces[k]) && child == cage.with_piece(pieces[k])
}

/// One of `cages` leads to the outcome `outcome`.
spec fn pending(
    cages: Seq<CageView>,
    outcome: CageView,
    pieces: Seq<Hitmap>,
    rotations: Seq<Rotation>,
) -> bool {
    exists|f: int|
        0 <= f < cages.len() && is_outcome(#[trigger] cages[f], outcome, pieces, rotations)
}

/// A cage leads to an outcome in one of two ways: it is maximal and the
/// outcome is its representative, or a piece fits and the cage with that
/// piece leads to the outcome.
pub proof fn lemma_outcome_step(
    cage: CageView,
    outcome: CageView,
    pieces: Seq<Hitmap>,
    rotations: Seq<Rotation>,
)
    ensures
        is_outcome(cage, outcome, pieces, rotations) <==> (is_terminal(cage, pieces) && outcome
            == cage.canonical(rotations)) || exists|k: int|
            0 <= k < pieces.len() && cage.fits(#[trigger] pieces[k]) && is_outcome(
                cage.with_piece(pieces[k]),
                outcome,
                pieces,
                rotations,
            ),
{
    if is_outcome(cage, outcome, pieces, rotations) {
        let end = choose|end: CageView|
            grows_to(cage, end, pieces) && outcome == #[trigger] end.canonical(rotations);
        let path = choose|path: Seq<Hitmap>|
            packable(cage, path, pieces) && #[trigger] packed(cage, path) == end
                && is_terminal(end, pieces);
        if path.len() > 0 {
            let k = choose|k: int| 0 <= k < pieces.len() && pieces[k] == path[0];
            let next = cage.with_piece(pieces[k]);
            assert(packable(next, path.drop_first(), pieces) && packed(next, path.drop_first())
                == end);
            assert(grows_to(next, end, pieces));
            assert(cage.fits(pieces[k]) && is_outcome(next, outcome, pieces, rotations));
        }
    }
    if is_terminal(cage, pieces) && outcome == cage.canonical(rotations) {
        let path = Seq::<Hitmap>::empty();
        assert(packable(cage, path, pieces) && packed(cage, path) == cage);
        assert(grows_to(cage, cage, pieces));
    }
    if exists|k: int|
        0 <= k < pieces.len() && cage.fits(#[trigger] pieces[k]) && is_outcome(
            cage.with_piece(pieces[k]),
            outcome,
            pieces,
            rotations,
        ) {
        let k = choose|k: int|
            0 <= k < pieces.len() && cage.fits(#[trigger] pieces[k]) && is_outcome(
                cage.with_piece(pieces[k]),
                outcome,
                pieces,
                rotations,
            );
        let next = cage.with_piece(pieces[k]);
        let end = choose|end: CageView|
            grows_to(next, end, pieces) && outcome == #[trigger] end.canonical(rotations);
        let rest = choose|rest: Seq<Hitmap>|
            packable(next, rest, pieces) && #[trigger] packed(next, rest) == end && is_terminal(
                end,
                pieces,
            );
        let path = seq![pieces[k]] + rest;
        assert(path[0] == pieces[k]);
        assert(path.drop_first() =~= rest);
        assert(packable(cage, path, pieces) && packed(cage, path) == end);
        assert(grows_to(cage, end, pieces));
    }
}

/// What packing the pieces of a path into a cage gives: the cells of the
/// cage and of the pieces together, and the pieces of the cage and of the
/// path in ascending order. No piece of the path shares a cell with the
/// cage or with another piece of the path.
pub proof fn lemma_packed_cage(cage: CageView, path: Seq<Hitmap>, pieces: Seq<Hitmap>)
    requires
        packable(cage, path, pieces),
    ensures
        forall|i: int|
            #![trigger packed(cage, path).hitmap.has(i)]
            packed(cage, path).hitmap.has(i) <==> cage.hitmap.has(i) || exists|k: int|
                0 <= k < path.len() && (#[trigger] path[k]).has(i),
        forall|k: int| 0 <= k < path.len() ==> !cage.hitmap.overlaps(#[trigger] path[k]),
        forall|j: int, k: int|
            0 <= j < k < path.len() ==> !(#[trigger] path[j]).overlaps(#[trigger] path[k]),
        packed(cage, path).pieces.len() == cage.pieces.len() + path.len(),
        packed(cage, path).pieces.to_multiset() == cage.pieces.to_multiset().add(
            path.to_multiset(),
        ),
        cage.wf() && (forall|k: int| 0 <= k < path.len() ==> (#[trigger] path[k]).wf())
            ==> packed(cage, path).wf(),
        forall|piece: Hitmap|
            #![trigger packed(cage, path).pieces.contains(piece)]
            packed(cage, path).pieces.contains(piece) <==> cage.pieces.contains(piece)
                || path.contains(piece),
        path.len() > 0 ==> vstd::relations::sorted_by(packed(cage, path).pieces, mask_order()),
    decreases path.len(),
{
    if path.len() > 0 {
        let first = path[0];
        let rest = path.drop_first();
        let next = cage.with_piece(first);
        lemma_packed_cage(next, rest, pieces);
        let end = packed(cage, path);
        assert(end == packed(next, rest));
        lemma_mask_order_total();
        cage.pieces.push(first).lemma_sort_by_ensures(mask_order());
        vstd::seq_lib::to_multiset_len(cage.pieces.push(first));
        vstd::seq_lib::to_multiset_len(next.pieces);
        assert forall|i: int|
            #![trigger end.hitmap.has(i)]
            end.hitmap.has(i) <==> cage.hitmap.has(i) || exists|k: int|
                0 <= k < path.len() && (#[trigger] path[k]).has(i) by {
            lemma_bit_or_and(cage.hitmap.0, first.0, i);
            assert(next.hitmap.has(i) == (cage.hitmap.has(i) || first.has(i)));
            assert(end.hitmap.has(i) <==> next.hitmap.has(i) || exists|k: int|
                0 <= k < rest.len() && (#[trigger] rest[k]).has(i));
            if first.has(i) {
                assert(path[0].has(i));
            }
            if exists|k: int| 0 <= k < rest.len() && (#[trigger] rest[k]).has(i) {
                let k = choose|k: int| 0 <= k < rest.len() && (#[trigger] rest[k]).has(i);
                assert(rest[k] == path[k + 1]);
                assert(path[k + 1].has(i));
            }
            if exists|k: int| 0 <= k < path.len() && (#[trigger] path[k]).has(i) {
                let k = choose|k: int| 0 <= k < path.len() && (#[trigger] path[k]).has(i);
                if k > 0 {
                    assert(rest[k - 1] == path[k]);
                    assert(rest[k - 1].has(i));
                }
            }
        }
        assert forall|k: int| 0 <= k < path.len() implies !cage.hitmap.overlaps(
            #[trigger] path[k],
        ) by {
            if k > 0 {
                assert(!next.hitmap.overlaps(rest[k - 1]));
                lemma_disjoint_from_union(cage.hitmap.0, first.0, path[k].0);
            }
        }
        assert forall|j: int, k: int| 0 <= j < k < path.len() implies !(
        #[trigger] path[j]).overlaps(#[trigger] path[k]) by {
            if j == 0 {
                assert(!next.hitmap.overlaps(rest[k - 1]));
                lemma_disjoint_from_union(cage.hitmap.0, first.0, path[k].0);
            } else {
                assert(!rest[j - 1].overlaps(rest[k - 1]));
            }
        }
        assert forall|piece: Hitmap| #![trigger end.pieces.contains(piece)]
            end.pieces.contains(piece) <==> cage.pieces.contains(piece) || path.contains(
                piece,
            ) by {
            vstd::seq_lib::to_multiset_contains(cage.pieces.push(first), piece);
            vstd::seq_lib::to_multiset_contains(next.pieces, piece);
            if cage.pieces.contains(piece) {
                let k = choose|k: int| 0 <= k < cage.pieces.len() && cage.pieces[k] == piece;
                assert(cage.pieces.push(first)[k] == piece);
            }
            if piece == first {
                assert(cage.pieces.push(first)[cage.pieces.len() as int] == piece);
                assert(path[0] == piece);
            }
            if rest.contains(piece) {
                let k = choose|k: int| 0 <= k < rest.len() && rest[k] == piece;
                assert(path[k + 1] == piece);
            }
            if path.contains(piece) {
                let k = choose|k: int| 0 <= k < path.len() && path[k] == piece;
                if k > 0 {
                    assert(rest[k - 1] == piece);
                }
            }
            if cage.pieces.push(first).contains(piece) {
                let k = choose|k: int|
                    0 <= k < cage.pieces.push(first).len() && cage.pieces.push(first)[k] == piece;
                if k < cage.pieces.len() {
                    assert(cage.pieces[k] == piece);
                }
            }
        }
        if rest.len() == 0 {
            assert(end == next);
        }
        assert(end.pieces.to_multiset() == cage.pieces.to_multiset().add(path.to_multiset())) by {
            vstd::seq_lib::to_multiset_build(cage.pieces, first);
            vstd::seq_lib::to_multiset_build(Seq::<Hitmap>::empty(), first);
            vstd::seq_lib::lemma_multiset_commutative(seq![first], rest);
            assert(path =~= seq![first] + rest);
            assert(Seq::<Hitmap>::empty().push(first) =~= seq![first]);
            Seq::<Hitmap>::empty().to_multiset_ensures();
            assert(end.pieces.to_multiset() =~= cage.pieces.to_multiset().add(
                path.to_multiset(),
            ));
        }
        if cage.wf() && (forall|k: int| 0 <= k < path.len() ==> (#[trigger] path[k]).wf()) {
            assert(first.wf());
            lemma_bit_or_and(cage.hitmap.0, first.0, 0);
            assert forall|k: int| 0 <= k < next.pieces.len() implies (
            #[trigger] next.pieces[k]).wf() by {
                let x = next.pieces[k];
                vstd::seq_lib::to_multiset_contains(cage.pieces.push(first), x);
                vstd::seq_lib::to_multiset_contains(next.pieces, x);
                assert(next.pieces.contains(x));
                let j = choose|j: int|
                    0 <= j < cage.pieces.push(first).len() && cage.pieces.push(first)[j] == x;
                if j < cage.pieces.len() {
                    assert(cage.pieces[j].wf());
                }
            }
            assert forall|k: int| 0 <= k < rest.len() implies (#[trigger] rest[k]).wf() by {
                assert(rest[k] == path[k + 1]);
            }
        }
    } else {
        assert(path.to_multiset() =~= vstd::multiset::Multiset::<Hitmap>::empty()) by {
            path.to_multiset_ensures();
            assert(path =~= Seq::<Hitmap>::empty());
        }
        assert(cage.pieces.to_multiset().add(path.to_multiset()) =~= cage.pieces.to_multiset());
        assert forall|piece: Hitmap|
            #![trigger packed(cage, path).pieces.contains(piece)]
            packed(cage, path).pieces.contains(piece) <==> cage.pieces.contains(piece)
                || path.contains(piece) by {
            if path.contains(piece) {
                let k = choose|k: int| 0 <= k < path.len() && path[k] == piece;
            }
        }
    }
}

/// Packing the same pieces in another order gives the same cage: the same
/// cells and the same list of pieces.
pub proof fn lemma_packing_order_free(
    cage: CageView,
    first: Seq<Hitmap>,
    second: Seq<Hitmap>,
    pieces: Seq<Hitmap>,
)
    requires
        cage.wf(),
        forall|k: int| 0 <= k < first.len() ==> (#[trigger] first[k]).wf(),
        packable(cage, first, pieces),
        packable(cage, second, pieces),
        first.to_multiset() == second.to_multiset(),
    ensures
        packed(cage, first) == packed(cage, second),
{
    let a = packed(cage, first);
    let b = packed(cage, second);
    assert forall|piece: Hitmap|
        #![trigger first.contains(piece)]
        #![trigger second.contains(piece)]
        first.contains(piece) == second.contains(piece) by {
        vstd::seq_lib::to_multiset_contains(first, piece);
        vstd::seq_lib::to_multiset_contains(second, piece);
    }
    assert forall|k: int| 0 <= k < second.len() implies (#[trigger] second[k]).wf() by {
        assert(second.contains(second[k]));
        assert(first.contains(second[k]));
        let j = choose|j: int| 0 <= j < first.len() && first[j] == second[k];
        assert(first[j].wf());
    }
    vstd::seq_lib::to_multiset_len(first);
    vstd::seq_lib::to_multiset_len(second);
    lemma_packed_cage(cage, first, pieces);
    lemma_packed_cage(cage, second, pieces);
    assert forall|i: int| a.hitmap.has(i) == b.hitmap.has(i) by {
        if exists|k: int| 0 <= k < first.len() && (#[trigger] first[k]).has(i) {
            let k = choose|k: int| 0 <= k < first.len() && (#[trigger] first[k]).has(i);
            assert(first.contains(first[k]));
            assert(second.contains(first[k]));
            let j = choose|j: int| 0 <= j < second.len() && second[j] == first[k];
            assert(second[j].has(i));
        }
        if exists|k: int| 0 <= k < second.len() && (#[trigger] second[k]).has(i) {
            let k = choose|k: int| 0 <= k < second.len() && (#[trigger] second[k]).has(i);
            assert(second.contains(second[k]));
            assert(first.contains(second[k]));
            let j = choose|j: int| 0 <= j < first.len() && first[j] == second[k];
            assert(first[j].has(i));
        }
    }
    lemma_hitmap_extensional(a.hitmap, b.hitmap);
    if first.len() > 0 {
        lemma_mask_order_total();
        vstd::seq_lib::lemma_sorted_unique(a.pieces, b.pieces, mask_order());
    } else {
        assert(first =~= second);
    }
}

/// The representative of a maximal packing is maximal too, where the pieces
/// come with all their turns.
pub proof fn lemma_canonical_terminal(
    cage: CageView,
    pieces: Seq<Hitmap>,
    rotations: Seq<Rotation>,
)
    requires
        is_rotation_group(rotations),
        is_piece_set(pieces),
        cage.hitmap.wf(),
        is_terminal(cage, pieces),
    ensures
        is_terminal(cage.canonical(rotations), pieces),
{
    let canon = cage.canonical(rotations);
    lemma_canonical_among(cage, rotations, rotations.len() as int);
    if canon != cage {
        let j = choose|j: int|
            0 <= j < rotations.len() && canon == cage.rotated((#[trigger] rotations[j])@);
        let m = rotations[j]@;
        assert(rotations[j].wf());
        lemma_transpose_inverts(m);
        assert forall|k: int| 0 <= k < pieces.len() implies !canon.fits(#[trigger] pieces[k]) by {
            let piece = pieces[k];
            let back = piece.rotated(transpose(m));
            assert(pieces.contains(back));
            let b = choose|b: int| 0 <= b < pieces.len() && pieces[b] == back;
            assert(!cage.fits(pieces[b]));
            lemma_rotate_overlaps(cage.hitmap, back, m);
            lemma_rotate_inverse(piece, transpose(m));
            assert(transpose(transpose(m)) == m);
        }
    }
}

/// How much a cage weighs in the count that shows that the search ends:
/// `base` to the power of `room`.
spec fn weight(base: nat, room: nat) -> nat
    decreases room,
{
    if room == 0 {
        1
    } else {
        base * weight(base, (room - 1) as nat)
    }
}

/// The room that is left above the mask of a cage.
spec fn room(cage: CageView) -> nat {
    (MASK_LIMIT - cage.hitmap.0) as nat
}

/// The weights of the cages together.
spec fn total_weight(cages: Seq<CageView>, base: nat) -> nat
    decreases cages.len(),
{
    if cages.len() == 0 {
        0
    } else {
        total_weight(cages.drop_last(), base) + weight(base, room(cages.last()))
    }
}

proof fn lemma_weight_grows(base: nat, small: nat, large: nat)
    requires
        base >= 1,
        small <= large,
    ensures
        1 <= weight(base, small) <= weight(base, large),
    decreases large,
{
    if small < large {
        lemma_weight_grows(base, small, (large - 1) as nat);
        let w = weight(base, (large - 1) as nat);
        assert(base * w >= w) by (nonlinear_arith)
            requires
                base >= 1,
                w >= 0,
        ;
    } else if large > 0 {
        lemma_weight_grows(base, (small - 1) as nat, (large - 1) as nat);
        let w = weight(base, (large - 1) as nat);
        assert(base * w >= w) by (nonlinear_arith)
            requires
                base >= 1,
                w >= 0,
        ;
    }
}

proof fn lemma_total_weight_concat(front: Seq<CageView>, back: Seq<CageView>, base: nat)
    ensures
        total_weight(front + back, base) == total_weight(front, base) + total_weight(back, base),
    decreases back.len(),
{
    if back.len() == 0 {
        assert(front + back =~= front);
    } else {
        lemma_total_weight_concat(front, back.drop_last(), base);
        assert((front + back).drop_last() =~= front + back.drop_last());
        assert((front + back).last() == back.last());
    }
}

/// A cage with room for `r + 1` weighs more than all its children together,
/// where there are fewer than `base` pieces.
proof fn lemma_children_weigh_less(cage: CageView, pieces: Seq<Hitmap>, n: int, base: nat)
    requires
        0 <= n <= pieces.len(),
        cage.wf(),
        forall|k: int|
            0 <= k < pieces.len() ==> (#[trigger] pieces[k]).wf() && pieces[k].0 != 0,
        base >= 1,
    ensures
        room(cage) >= 1,
        total_weight(children(cage, pieces, n), base) <= n * weight(
            base,
            (room(cage) - 1) as nat,
        ),
        forall|i: int|
            0 <= i < children(cage, pieces, n).len() ==> (#[trigger] children(
                cage,
                pieces,
                n,
            )[i]).wf(),
    decreases n,
{
    let unit = weight(base, (room(cage) - 1) as nat);
    if n > 0 {
        lemma_children_weigh_less(cage, pieces, n - 1, base);
        let piece = pieces[n - 1];
        let before = children(cage, pieces, n - 1);
        assert(n * unit == (n - 1) * unit + unit) by (nonlinear_arith);
        if cage.fits(piece) {
            let child = cage.with_piece(piece);
            lemma_disjoint_union_grows(cage.hitmap.0, piece.0);
            lemma_bit_or_and(cage.hitmap.0, piece.0, 0);
            lemma_weight_grows(base, room(child), (room(cage) - 1) as nat);
            assert(before.push(child).drop_last() =~= before);
            lemma_mask_order_total();
            cage.pieces.push(piece).lemma_sort_by_ensures(mask_order());
            assert forall|k: int| 0 <= k < child.pieces.len() implies (
            #[trigger] child.pieces[k]).wf() by {
                let x = child.pieces[k];
                assert(child.pieces.contains(x));
                assert(cage.pieces.push(piece).contains(x));
                let j = choose|j: int|
                    0 <= j < cage.pieces.push(piece).len() && cage.pieces.push(piece)[j] == x;
                if j < cage.pieces.len() {
                    assert(cage.pieces[j].wf());
                }
            }
        }
    } else {
        assert(0 * unit == 0) by (nonlinear_arith);
    }
}

/// The children of a cage are the cages with one more piece that fits.
proof fn lemma_children(cage: CageView, pieces: Seq<Hitmap>, n: int)
    requires
        0 <= n <= pieces.len(),
    ensures
        forall|i: int|
            0 <= i < children(cage, pieces, n).len() ==> is_child(
                cage,
                pieces,
                n,
                #[trigger] children(cage, pieces, n)[i],
            ),
        forall|k: int|
            0 <= k < n && cage.fits(#[trigger] pieces[k]) ==> children(cage, pieces, n).contains(
                cage.with_piece(pieces[k]),
            ),
        (children(cage, pieces, n).len() == 0) == (forall|k: int|
            0 <= k < n ==> !cage.fits(#[trigger] pieces[k])),
    decreases n,
{
    if n > 0 {
        lemma_children(cage, pieces, n - 1);
        let before = children(cage, pieces, n - 1);
        let now = children(cage, pieces, n);
        let piece = pieces[n - 1];
        if cage.fits(piece) {
            assert(now[before.len() as int] == cage.with_piece(pieces[n - 1]));
            assert forall|k: int|
                0 <= k < n && cage.fits(#[trigger] pieces[k]) implies now.contains(
                cage.with_piece(pieces[k]),
            ) by {
                if k < n - 1 {
                    let i = choose|i: int|
                        0 <= i < before.len() && before[i] == cage.with_piece(pieces[k]);
                    assert(now[i] == cage.with_piece(pieces[k]));
                }
            }
            assert forall|i: int| 0 <= i < now.len() implies is_child(
                cage,
                pieces,
                n,
                #[trigger] now[i],
            ) by {
                if i < before.len() {
                    assert(is_child(cage, pieces, n - 1, before[i]));
                    let k = choose|k: int|
                        0 <= k < n - 1 && cage.fits(#[trigger] pieces[k]) && before[i]
                            == cage.with_piece(pieces[k]);
                    assert(0 <= k < n && cage.fits(pieces[k]) && now[i] == cage.with_piece(
                        pieces[k],
                    ));
                } else {
                    assert(0 <= n - 1 < n && cage.fits(pieces[n - 1]) && now[i]
                        == cage.with_piece(pieces[n - 1]));
                }
            }
        } else {
            assert forall|i: int| 0 <= i < now.len() implies is_child(
                cage,
                pieces,
                n,
                #[trigger] now[i],
            ) by {
                assert(is_child(cage, pieces, n - 1, before[i]));
                let k = choose|k: int|
                    0 <= k < n - 1 && cage.fits(#[trigger] pieces[k]) && before[i]
                        == cage.with_piece(pieces[k]);
                assert(0 <= k < n && cage.fits(pieces[k]) && now[i] == cage.with_piece(
                    pieces[k],
                ));
            }
        }
    }
}

/// Taking a cage off the work list and putting its children there leaves
/// the outcomes that the search still owes where they were: those of the
/// cage are its own representative, where it is maximal, and else those of
/// its children.
proof fn lemma_expansion_keeps_outcomes(
    rest: Seq<CageView>,
    cage: CageView,
    pieces: Seq<Hitmap>,
    rotations: Seq<Rotation>,
    outcome: CageView,
)
    ensures
        pending(rest.push(cage), outcome, pieces, rotations) <==> pending(
            rest + children(cage, pieces, pieces.len() as int),
            outcome,
            pieces,
            rotations,
        ) || (is_terminal(cage, pieces) && outcome == cage.canonical(rotations)),
{
    let before = rest.push(cage);
    let kids = children(cage, pieces, pieces.len() as int);
    let after = rest + kids;
    lemma_children(cage, pieces, pieces.len() as int);
    lemma_outcome_step(cage, outcome, pieces, rotations);
    if pending(before, outcome, pieces, rotations) {
        let f = choose|f: int|
            0 <= f < before.len() && is_outcome(#[trigger] before[f], outcome, pieces, rotations);
        if f < rest.len() {
            assert(after[f] == rest[f]);
            assert(pending(after, outcome, pieces, rotations));
        } else if !(is_terminal(cage, pieces) && outcome == cage.canonical(rotations)) {
            let k = choose|k: int|
                0 <= k < pieces.len() && cage.fits(#[trigger] pieces[k]) && is_outcome(
                    cage.with_piece(pieces[k]),
                    outcome,
                    pieces,
                    rotations,
                );
            assert(kids.contains(cage.with_piece(pieces[k])));
            let i = choose|i: int| 0 <= i < kids.len() && kids[i] == cage.with_piece(pieces[k]);
            assert(after[rest.len() + i] == kids[i]);
            assert(pending(after, outcome, pieces, rotations));
        }
    }
    if pending(after, outcome, pieces, rotations) {
        let f = choose|f: int|
            0 <= f < after.len() && is_outcome(#[trigger] after[f], outcome, pieces, rotations);
        if f < rest.len() {
            assert(before[f] == rest[f]);
        } else {
            let i = f - rest.len();
            assert(after[f] == kids[i]);
            assert(is_child(cage, pieces, pieces.len() as int, kids[i]));
            let k = choose|k: int|
                0 <= k < pieces.len() && cage.fits(#[trigger] pieces[k]) && kids[i]
                    == cage.with_piece(pieces[k]);
            assert(is_outcome(cage.with_piece(pieces[k]), outcome, pieces, rotations));
            assert(before[rest.len() as int] == cage);
        }
        assert(pending(before, outcome, pieces, rotations));
    }
    if is_terminal(cage, pieces) && outcome == cage.canonical(rotations) {
        assert(before[rest.len() as int] == cage);
        assert(pending(before, outcome, pieces, rotations));
    }
}

/// Adds `piece` at the end of `pieces` unless it is there already.
fn insert_piece(pieces: &mut Vec<Hitmap>, piece: Hitmap)
    requires
        old(pieces)@.no_duplicates(),
    ensures
        final(pieces)@.no_duplicates(),
        forall|h: Hitmap| final(pieces)@.contains(h) <==> old(pieces)@.contains(h) || h == piece,
{
    let mut n: usize = 0;
    while n < pieces.len()
        invariant
            n <= pieces.len(),
            pieces@ == old(pieces)@,
            pieces@.no_duplicates(),
            forall|k: int| 0 <= k < n ==> pieces@[k] != piece,
        decreases pieces.len() - n,
    {
        if pieces[n].0 == piece.0 {
            assert(pieces@[n as int] == piece);
            return;
        }
        n += 1;
    }
    let ghost before = pieces@;
    pieces.push(piece);
    proof {
        assert(pieces@[before.len() as int] == piece);
        assert forall|h: Hitmap| pieces@.contains(h) <==> before.contains(h) || h == piece by {
            if before.contains(h) {
                let k = choose|k: int| 0 <= k < before.len() && before[k] == h;
                assert(pieces@[k] == h);
            }
        }
    }
}

/// Adds `cage` at the end of `cages` unless a cage of the same value is
/// there already.
fn insert_cage(cages: &mut Vec<Cage>, cage: Cage)
    requires
        distinct_cages(old(cages)@),
    ensures
        distinct_cages(final(cages)@),
        final(cages)@ == old(cages)@ || final(cages)@ == old(cages)@.push(cage),
        forall|c: CageView|
            holds_cage(final(cages)@, c) <==> holds_cage(old(cages)@, c) || c == cage@,
{
    let mut n: usize = 0;
    while n < cages.len()
        invariant
            n <= cages.len(),
            cages@ == old(cages)@,
            distinct_cages(cages@),
            forall|k: int| 0 <= k < n ==> (#[trigger] cages@[k])@ != cage@,
        decreases cages.len() - n,
    {
        if cages[n].same_as(&cage) {
            assert(cages@[n as int]@ == cage@);
            return;
        }
        n += 1;
    }
    let ghost before = cages@;
    cages.push(cage);
    proof {
        assert(cages@[before.len() as int]@ == cage@);
        assert forall|c: CageView| holds_cage(cages@, c) <==> holds_cage(before, c) || c
            == cage@ by {
            if holds_cage(before, c) {
                let k = choose|k: int| 0 <= k < before.len() && (#[trigger] before[k])@ == c;
                assert(cages@[k]@ == c);
            }
        }
    }
}

/// Puts on the work list every cage that packing one of `pieces` into
/// `cage` gives, and says whether there was none.
fn expand(cage: &Cage, pieces: &Vec<Hitmap>, fringe: &mut Vec<Cage>) -> (is_end_state: bool)
    ensures
        is_end_state == is_terminal(cage@, pieces@),
        cage_views(final(fringe)@) == cage_views(old(fringe)@) + children(
            cage@,
            pieces@,
            pieces.len() as int,
        ),
{
    let mut is_end_state = true;
    let mut n: usize = 0;
    proof {
        assert(cage_views(fringe@) =~= cage_views(fringe@) + children(cage@, pieces@, 0));
    }
    while n < pieces.len()
        invariant
            n <= pieces.len(),
            is_end_state == (forall|k: int| 0 <= k < n ==> !cage@.fits(#[trigger] pieces@[k])),
            cage_views(fringe@) == cage_views(old(fringe)@) + children(cage@, pieces@, n as int),
        decreases pieces.len() - n,
    {
        let ghost before = fringe@;
        match cage.add(pieces[n]) {
            Err(PieceDoesNotFit) => {},
            Ok(new_cage) => {
                is_end_state = false;
                fringe.push(new_cage);
                proof {
                    assert(cage_views(fringe@) =~= cage_views(before).push(new_cage@));
                    assert(cage_views(fringe@) =~= cage_views(old(fringe)@) + children(
                        cage@,
                        pieces@,
                        n + 1,
                    ));
                }
            },
        }
        n += 1;
    }
    is_end_state
}

/// The candidate pieces and the rotations of the cube: what the search
/// works with.
pub struct Search {
    all_pieces: Vec<Hitmap>,
    rotations: Vec<Rotation>,
}

impl Search {
    /// The candidate pieces.
    pub closed spec fn candidates(&self) -> Seq<Hitmap> {
        self.all_pieces@
    }

    /// The rotations of the cube.
    pub closed spec fn turns(&self) -> Seq<Rotation> {
        self.rotations@
    }

    /// The rotations are the whole rotation group, and the candidate pieces
    /// come with all their turns.
    pub open spec fn wf(&self) -> bool {
        &&& is_rotation_group(self.turns())
        &&& is_piece_set(self.candidates())
    }

    /// The candidate pieces.
    pub fn all_pieces(&self) -> (pieces: &Vec<Hitmap>)
        ensures
            pieces@ == self.candidates(),
    {
        &self.all_pieces
    }

    /// The rotations of the cube.
    pub fn rotations(&self) -> (rotations: &Vec<Rotation>)
        ensures
            rotations@ == self.turns(),
    {
        &self.rotations
    }

    /// The search over the two base pieces in all their orientations: every
    /// turn of either by a proper rotation is a candidate, each mask once.
    pub fn new() -> (search: Self)
        ensures
            search.wf(),
            forall|piece: Hitmap| search.candidates().contains(piece) <==> is_orientation(piece),
    {
        let rotations = all_rotations();
        let mut all_pieces: Vec<Hitmap> = Vec::new();

        let x = Coordinate { x: 1, y: 0, z: 0 };
        let y = Coordinate { x: 0, y: 1, z: 0 };
        let z = Coordinate { x: 0, y: 0, z: 1 };
        let corner = Coordinate { x: -1, y: -1, z: -1 };
        let mut builder = HitmapBuilder::new(corner);
        builder = builder.shift(x);
        builder = builder.shift(x);
        builder = builder.shift(z);
        builder = builder.teleport(corner);
        builder = builder.shift(z);
        builder = builder.teleport(corner);
        builder = builder.shift(y);
        builder = builder.shift(y);

        proof {
            lemma_first_piece_built();
        }
        let piece1 = builder.hitmap;
        proof {
            assert forall|i: int| piece1.has(i) implies (#[trigger] point_at(i)).plus(
                z@,
            ).in_cube() by {
                lemma_first_piece_cells(i);
            }
        }

        // The piece fits in one more place: one cell up. Everything else is
        // a rotation.
        let piece2 = piece1.shift(z);
        proof {
            lemma_base_pieces();
        }

        let mut n: usize = 0;
        while n < rotations.len()
            invariant
                n <= rotations.len(),
                is_rotation_group(rotations@),
                piece1 == first_piece(),
                piece2 == second_piece(),
                all_pieces@.no_duplicates(),
                forall|piece: Hitmap|
                    all_pieces@.contains(piece) <==> exists|k: int|
                        0 <= k < n && (piece == first_piece().rotated(
                            (#[trigger] rotations@[k])@,
                        ) || piece == second_piece().rotated(rotations@[k]@)),
            decreases rotations.len() - n,
        {
            let rotation = &rotations[n];
            let ghost before = all_pieces@;
            insert_piece(&mut all_pieces, piece1.rotate(rotation));
            insert_piece(&mut all_pieces, piece2.rotate(rotation));
            proof {
                assert forall|piece: Hitmap|
                    all_pieces@.contains(piece) <==> exists|k: int|
                        0 <= k < n + 1 && (piece == first_piece().rotated(
                            (#[trigger] rotations@[k])@,
                        ) || piece == second_piece().rotated(rotations@[k]@)) by {
                    if before.contains(piece) {
                        let k = choose|k: int|
                            0 <= k < n && (piece == first_piece().rotated(
                                (#[trigger] rotations@[k])@,
                            ) || piece == second_piece().rotated(rotations@[k]@));
                        assert(0 <= k < n + 1 && (piece == first_piece().rotated(rotations@[k]@)
                            || piece == second_piece().rotated(rotations@[k]@)));
                    }
                    if piece == first_piece().rotated(rotations@[n as int]@) || piece
                        == second_piece().rotated(rotations@[n as int]@) {
                        assert(0 <= n < n + 1 && (piece == first_piece().rotated(
                            rotations@[n as int]@,
                        ) || piece == second_piece().rotated(rotations@[n as int]@)));
                    }
                }
            }
            n += 1;
        }
        proof {
            lemma_orientations(all_pieces@, rotations@);
        }
        Self { all_pieces, rotations }
    }

    /// Packs the candidate pieces into the empty cube in every way, until
    /// no further piece fits, and returns the representatives of the maximal
    /// packings that this leads to, each once. All of them are maximal.
    pub fn search(self) -> (found: Vec<Cage>)
        requires
            self.wf(),
        ensures
            forall|outcome: CageView|
                holds_cage(found@, outcome) <==> is_outcome(
                    CageView::empty(),
                    outcome,
                    self.candidates(),
                    self.turns(),
                ),
            distinct_cages(found@),
            forall|k: int|
                0 <= k < found.len() ==> {
                    &&& is_terminal((#[trigger] found[k])@, self.candidates())
                    &&& found[k]@.wf()
                    &&& found[k]@.canonical(self.turns()) == found[k]@
                },
    {
        let mut fringe: Vec<Cage> = vec![Cage::new()];
        let mut canonical_end_states: Vec<Cage> = Vec::new();
        let ghost pieces = self.all_pieces@;
        let ghost rotations = self.rotations@;
        let ghost base = (pieces.len() + 1) as nat;
        proof {
            assert(cage_views(fringe@)[0] == CageView::empty());
            assert forall|outcome: CageView|
                is_outcome(CageView::empty(), outcome, pieces, rotations) <==> pending(
                    cage_views(fringe@),
                    outcome,
                    pieces,
                    rotations,
                ) by {
                if pending(cage_views(fringe@), outcome, pieces, rotations) {
                    let f = choose|f: int|
                        0 <= f < cage_views(fringe@).len() && is_outcome(
                            #[trigger] cage_views(fringe@)[f],
                            outcome,
                            pieces,
                            rotations,
                        );
                    assert(f == 0);
                }
            }
        }

        loop
            invariant
                pieces == self.all_pieces@,
                rotations == self.rotations@,
                base == pieces.len() + 1,
                is_rotation_group(rotations),
                is_piece_set(pieces),
                forall|f: int|
                    0 <= f < fringe.len() ==> (#[trigger] cage_views(fringe@)[f]).wf(),
                forall|outcome: CageView|
                    is_outcome(CageView::empty(), outcome, pieces, rotations) <==> holds_cage(
                        canonical_end_states@,
                        outcome,
                    ) || pending(cage_views(fringe@), outcome, pieces, rotations),
                distinct_cages(canonical_end_states@),
                forall|k: int|
                    0 <= k < canonical_end_states.len() ==> {
                        &&& is_terminal((#[trigger] canonical_end_states[k])@, pieces)
                        &&& canonical_end_states[k]@.wf()
                        &&& canonical_end_states[k]@.canonical(rotations)
                            == canonical_end_states[k]@
                    },
            ensures
                fringe.len() == 0,
            decreases total_weight(cage_views(fringe@), base),
        {
            let ghost before = cage_views(fringe@);
            let ghost found_before = canonical_end_states@;
            let cage = match fringe.pop() {
                None => break,
                Some(cage) => cage,
            };
            let ghost rest = cage_views(fringe@);
            proof {
                assert(rest =~= before.drop_last());
                assert(before =~= rest.push(cage@));
                assert(before.last() == cage@);
                assert(before[before.len() - 1].wf());
                assert forall|f: int| 0 <= f < rest.len() implies (#[trigger] rest[f]).wf() by {
                    assert(before[f].wf());
                }
            }

            let is_end_state = expand(&cage, &self.all_pieces, &mut fringe);

            if is_end_state {
                let cage = cage.canonicalize(&self.rotations);
                insert_cage(&mut canonical_end_states, cage);
            }
            proof {
                let kids = children(cage@, pieces, pieces.len() as int);
                let after = cage_views(fringe@);
                lemma_children(cage@, pieces, pieces.len() as int);
                lemma_children_weigh_less(cage@, pieces, pieces.len() as int, base);
                lemma_total_weight_concat(rest, kids, base);
                let unit = weight(base, (room(cage@) - 1) as nat);
                lemma_weight_grows(base, 0, (room(cage@) - 1) as nat);
                assert(pieces.len() * unit < base * unit) by (nonlinear_arith)
                    requires
                        base == pieces.len() + 1,
                        unit >= 1,
                ;
                assert(total_weight(after, base) < total_weight(before, base));
                assert forall|f: int| 0 <= f < after.len() implies (#[trigger] after[f]).wf() by {
                    if f < rest.len() {
                        assert(after[f] == rest[f]);
                    } else {
                        assert(after[f] == kids[f - rest.len()]);
                    }
                }
                if is_end_state {
                    lemma_canonical_terminal(cage@, pieces, rotations);
                    lemma_identity_neutral(identity(), Point { x: 0, y: 0, z: 0 });
                    lemma_canonical_is_least(cage@, rotations, identity());
                    lemma_canonical_idempotent(cage@, rotations);
                }
                assert forall|outcome: CageView|
                    is_outcome(CageView::empty(), outcome, pieces, rotations) <==> holds_cage(
                        canonical_end_states@,
                        outcome,
                    ) || pending(after, outcome, pieces, rotations) by {
                    lemma_expansion_keeps_outcomes(rest, cage@, pieces, rotations, outcome);
                    assert(is_outcome(CageView::empty(), outcome, pieces, rotations)
                        <==> holds_cage(found_before, outcome) || pending(
                        before,
                        outcome,
                        pieces,
                        rotations,
                    ));
                }
            }
        }
        proof {
            assert forall|outcome: CageView|
                !pending(cage_views(fringe@), outcome, pieces, rotations) by {}
        }
        canonical_end_states
    }
}

/// Marking the cells 0, 1, 2, 11, 0, 9, 0, 3 and 6 one after another gives
/// the first base piece.
proof fn lemma_first_piece_built()
    ensures
        1u32 << 0u32 == 0x1,
        0x1u32 | (1u32 << 1u32) == 0x3,
        0x3u32 | (1u32 << 2u32) == 0x7,
        0x7u32 | (1u32 << 11u32) == 0x807,
        0x807u32 | (1u32 << 0u32) == 0x807,
        0x807u32 | (1u32 << 9u32) == 0xA07,
        0xA07u32 | (1u32 << 0u32) == 0xA07,
        0xA07u32 | (1u32 << 3u32) == 0xA0F,
        0xA0Fu32 | (1u32 << 6u32) == 0xA4F,
{
    assert(1u32 << 0u32 == 0x1) by (bit_vector);
    assert(0x1u32 | (1u32 << 1u32) == 0x3) by (bit_vector);
    assert(0x3u32 | (1u32 << 2u32) == 0x7) by (bit_vector);
    assert(0x7u32 | (1u32 << 11u32) == 0x807) by (bit_vector);
    assert(0x807u32 | (1u32 << 0u32) == 0x807) by (bit_vector);
    assert(0x807u32 | (1u32 << 9u32) == 0xA07) by (bit_vector);
    assert(0xA07u32 | (1u32 << 0u32) == 0xA07) by (bit_vector);
    assert(0xA07u32 | (1u32 << 3u32) == 0xA0F) by (bit_vector);
    assert(0xA0Fu32 | (1u32 << 6u32) == 0xA4F) by (bit_vector);
}

/// The cells of the first base piece.
proof fn lemma_first_piece_cells(i: int)
    ensures
        first_piece().has(i) <==> i == 0 || i == 1 || i == 2 || i == 3 || i == 6 || i == 9 || i
            == 11,
{
    if 0 <= i < 27 {
        let k = i as u32;
        assert(((0xA4Fu32 >> k) & 1 == 1) <==> k == 0 || k == 1 || k == 2 || k == 3 || k == 6
            || k == 9 || k == 11) by (bit_vector)
            requires
                k < 27,
        ;
    }
}

/// Both base pieces are masks of bits 0 to 26 with a cell in them.
proof fn lemma_base_pieces()
    ensures
        first_piece().wf(),
        first_piece().0 != 0,
        second_piece().wf(),
        second_piece().0 != 0,
{
    let up = Point { x: 0, y: 0, z: 1 };
    lemma_moved_has(first_piece(), |i: int| shift_index(up, i));
    lemma_first_piece_cells(0);
    assert(first_piece().has(0) && (|i: int| shift_index(up, i))(0) == 9);
    assert(second_piece().has(9));
    lemma_bit_or_and(0, 0, 9);
}

/// The turns of the two base pieces by the rotations of the whole group are
/// their turns by all proper rotations, and they make a set of candidate
/// pieces.
proof fn lemma_orientations(pieces: Seq<Hitmap>, rotations: Seq<Rotation>)
    requires
        is_rotation_group(rotations),
        pieces.no_duplicates(),
        forall|piece: Hitmap|
            pieces.contains(piece) <==> exists|k: int|
                0 <= k < rotations.len() && (piece == first_piece().rotated(
                    (#[trigger] rotations[k])@,
                ) || piece == second_piece().rotated(rotations[k]@)),
    ensures
        is_piece_set(pieces),
        forall|piece: Hitmap| pieces.contains(piece) <==> is_orientation(piece),
{
    lemma_base_pieces();
    assert forall|piece: Hitmap| pieces.contains(piece) <==> is_orientation(piece) by {
        if pieces.contains(piece) {
            let k = choose|k: int|
                0 <= k < rotations.len() && (piece == first_piece().rotated(
                    (#[trigger] rotations[k])@,
                ) || piece == second_piece().rotated(rotations[k]@));
            assert(rotations[k].wf());
            assert(is_rotation(rotations[k]@) && (piece == first_piece().rotated(rotations[k]@)
                || piece == second_piece().rotated(rotations[k]@)));
        }
        if is_orientation(piece) {
            let m = choose|m: Mat3|
                is_rotation(m) && (piece == #[trigger] first_piece().rotated(m) || piece
                    == second_piece().rotated(m));
            assert(holds_matrix(rotations, m));
            let k = choose|k: int| 0 <= k < rotations.len() && (#[trigger] rotations[k])@ == m;
            assert(0 <= k < rotations.len() && (piece == first_piece().rotated(rotations[k]@)
                || piece == second_piece().rotated(rotations[k]@)));
        }
    }
    assert forall|k: int| 0 <= k < pieces.len() implies (#[trigger] pieces[k]).wf() && pieces[k].0
        != 0 by {
        let piece = pieces[k];
        assert(pieces.contains(piece));
        let m = choose|m: Mat3|
            is_rotation(m) && (piece == #[trigger] first_piece().rotated(m) || piece
                == second_piece().rotated(m));
        lemma_rotated_has(first_piece(), m, 0);
        lemma_rotated_has(second_piece(), m, 0);
        lemma_rotate_keeps_cells(first_piece(), m);
        lemma_rotate_keeps_cells(second_piece(), m);
    }
    assert forall|k: int, by: Mat3|
        0 <= k < pieces.len() && is_rotation(by) implies pieces.contains(
        #[trigger] pieces[k].rotated(by),
    ) by {
        let piece = pieces[k];
        assert(pieces.contains(piece));
        let m = choose|m: Mat3|
            is_rotation(m) && (piece == #[trigger] first_piece().rotated(m) || piece
                == second_piece().rotated(m));
        lemma_rotations_closed(by, m);
        lemma_rotate_product(first_piece(), by, m);
        lemma_rotate_product(second_piece(), by, m);
        let whole = mat_mul(by, m);
        assert(is_rotation(whole) && (piece.rotated(by) == first_piece().rotated(whole)
            || piece.rotated(by) == second_piece().rotated(whole)));
        assert(is_orientation(piece.rotated(by)));
    }
}

} // verus!
