//! The cage: the pieces packed into the cube so far, and the cells they
//! occupy together.

use vstd::prelude::*;
use vstd::relations::{sorted_by, total_ordering};
use vstd::seq_lib::lemma_sorted_unique;
use crate::bits::lemma_union_either_order;
use crate::coordinates::{all_proper, holds_matrix, is_rotation_group, Rotation};
use crate::hitmap::{
    lemma_rotate_identity, lemma_rotate_product, lemma_rotated_has, Hitmap,
};
use crate::matrix::{
    identity, is_rotation, lemma_identity_neutral, lemma_mat_mul_associative,
    lemma_transpose_inverts, mat_mul, transpose, Mat3, Point,
};
use crate::rotation_group::lemma_rotations_closed;

verus! {

/// The order of masks: the order of their integer values.
pub open spec fn mask_order() -> spec_fn(Hitmap, Hitmap) -> bool {
    |a: Hitmap, b: Hitmap| a.0 <= b.0
}

/// The order of masks is a total order.
pub proof fn lemma_mask_order_total()
    ensures
        total_ordering(mask_order()),
{
    let leq = mask_order();
    assert forall|a: Hitmap, b: Hitmap| #[trigger] leq(a, b) && #[trigger] leq(b, a) implies a
        == b by {
        assert(a.0 == b.0);
    }
}

/// The mathematical value of a [`Cage`]: the mask of all occupied cells and
/// the masks of the pieces.
pub struct CageView {
    pub hitmap: Hitmap,
    pub pieces: Seq<Hitmap>,
}

impl CageView {
    /// The cage with no piece in it.
    pub open spec fn empty() -> CageView {
        CageView { hitmap: Hitmap(0), pieces: Seq::empty() }
    }

    /// Every mask of the cage has only bits 0 to 26 set.
    pub open spec fn wf(self) -> bool {
        &&& self.hitmap.wf()
        &&& forall|k: int| 0 <= k < self.pieces.len() ==> (#[trigger] self.pieces[k]).wf()
    }

    /// `piece` shares no cell with what is in the cage.
    pub open spec fn fits(self, piece: Hitmap) -> bool {
        !self.hitmap.overlaps(piece)
    }

    /// The cage with `piece` packed in as well: its cells joined to the
    /// cage's, and the pieces in ascending order of their masks.
    pub open spec fn with_piece(self, piece: Hitmap) -> CageView {
        CageView {
            hitmap: self.hitmap.union(piece),
            pieces: self.pieces.push(piece).sort_by(mask_order()),
        }
    }

    /// The cage turned by the matrix `m`: the cells and every piece, each
    /// piece in its place in the list.
    pub open spec fn rotated(self, m: Mat3) -> CageView {
        CageView {
            hitmap: self.hitmap.rotated(m),
            pieces: self.pieces.map_values(|piece: Hitmap| piece.rotated(m)),
        }
    }

    /// The best of the cage and its turns by the first `n` of `rotations`:
    /// the one with the smallest mask of cells, and of those with that mask
    /// the one that comes first, the cage itself before all its turns.
    pub open spec fn canonical_among(self, rotations: Seq<Rotation>, n: int) -> CageView
        decreases n,
    {
        if n <= 0 {
            self
        } else {
            let best = self.canonical_among(rotations, n - 1);
            let turned = self.rotated(rotations[n - 1]@);
            if turned.hitmap.0 < best.hitmap.0 {
                turned
            } else {
                best
            }
        }
    }

    /// The representative of the cage among its turns by `rotations`.
    pub open spec fn canonical(self, rotations: Seq<Rotation>) -> CageView {
        self.canonical_among(rotations, rotations.len() as int)
    }

    /// The packing counts as a solution: exactly three pieces are in it.
    pub open spec fn is_solution(self) -> bool {
        self.pieces.len() == 3
    }
}

/// The pieces packed so far, in ascending order of their masks, and the mask
/// of the cells they occupy together. A cage is never changed: packing a
/// piece gives a new cage.
#[derive(Clone, Debug, PartialEq, Eq, Hash)]
pub struct Cage {
    hitmap: Hitmap,
    pieces: Vec<Hitmap>,
}

impl View for Cage {
    type V = CageView;

    closed spec fn view(&self) -> CageView {
        CageView { hitmap: self.hitmap, pieces: self.pieces@ }
    }
}

/// The piece shares a cell with what is in the cage already.
#[derive(Clone, Copy, Debug, PartialEq, Eq)]
pub struct PieceDoesNotFit;

/// The masks in ascending order.
fn sort_pieces(pieces: Vec<Hitmap>) -> (sorted: Vec<Hitmap>)
    ensures
        sorted@ == pieces@.sort_by(mask_order()),
{
    let mut sorted: Vec<Hitmap> = Vec::new();
    let mut n: usize = 0;
    proof {
        assert(sorted@ =~= pieces@.take(0));
    }
    while n < pieces.len()
        invariant
            n <= pieces.len(),
            sorted_by(sorted@, mask_order()),
            sorted@.to_multiset() == pieces@.take(n as int).to_multiset(),
        decreases pieces.len() - n,
    {
        let piece = pieces[n];
        let mut at: usize = 0;
        while at < sorted.len() && sorted[at].0 <= piece.0
            invariant
                at <= sorted.len(),
                forall|k: int| 0 <= k < at ==> (#[trigger] sorted[k]).0 <= piece.0,
            decreases sorted.len() - at,
        {
            at += 1;
        }
        let ghost before = sorted@;
        sorted.insert(at, piece);
        proof {
            vstd::seq_lib::to_multiset_insert(before, at as int, piece);
            pieces@.lemma_take_succ_push(n as int);
            vstd::seq_lib::to_multiset_build(pieces@.take(n as int), piece);
            assert forall|i: int, j: int| 0 <= i < j < sorted@.len() implies (
            #[trigger] mask_order()(sorted@[i], sorted@[j])) by {
                if j < at {
                    assert(mask_order()(before[i], before[j]));
                } else if j == at {
                } else if i < at {
                    assert(mask_order()(before[i], before[j - 1]));
                } else if i == at {
                    assert(mask_order()(before[at as int], before[j - 1]));
                } else {
                    assert(mask_order()(before[i - 1], before[j - 1]));
                }
            }
        }
        n += 1;
    }
    proof {
        assert(pieces@.take(pieces@.len() as int) =~= pieces@);
        lemma_mask_order_total();
        pieces@.lemma_sort_by_ensures(mask_order());
        lemma_sorted_unique(sorted@, pieces@.sort_by(mask_order()), mask_order());
    }
    sorted
}

/// The masks, each turned by `rotation`.
fn rotate_pieces(pieces: &Vec<Hitmap>, rotation: &Rotation) -> (turned: Vec<Hitmap>)
    requires
        rotation.wf(),
    ensures
        turned@ == pieces@.map_values(|piece: Hitmap| piece.rotated(rotation@)),
{
    let mut turned: Vec<Hitmap> = Vec::new();
    let mut n: usize = 0;
    while n < pieces.len()
        invariant
            n <= pieces.len(),
            rotation.wf(),
            turned@ == pieces@.take(n as int).map_values(
                |piece: Hitmap| piece.rotated(rotation@),
            ),
        decreases pieces.len() - n,
    {
        turned.push(pieces[n].rotate(rotation));
        proof {
            pieces@.lemma_map_take_succ(|piece: Hitmap| piece.rotated(rotation@), n as int);
        }
        n += 1;
    }
    proof {
        assert(pieces@.take(pieces@.len() as int) =~= pieces@);
    }
    turned
}

/// A copy of the masks.
fn copy_pieces(pieces: &Vec<Hitmap>) -> (copy: Vec<Hitmap>)
    ensures
        copy@ == pieces@,
{
    let mut copy: Vec<Hitmap> = Vec::new();
    let mut n: usize = 0;
    while n < pieces.len()
        invariant
            n <= pieces.len(),
            copy@ == pieces@.take(n as int),
        decreases pieces.len() - n,
    {
        copy.push(pieces[n]);
        proof {
            pieces@.lemma_take_succ_push(n as int);
        }
        n += 1;
    }
    proof {
        assert(pieces@.take(pieces@.len() as int) =~= pieces@);
    }
    copy
}

impl Cage {
    /// The cage with no piece in it.
    pub fn new() -> (cage: Self)
        ensures
            cage@ == CageView::empty(),
    {
        Cage { hitmap: Hitmap::empty(), pieces: Vec::new() }
    }

    /// The mask of the cells that the pieces occupy together.
    pub fn hitmap(&self) -> (hitmap: Hitmap)
        ensures
            hitmap == self@.hitmap,
    {
        self.hitmap
    }

    /// The masks of the pieces.
    pub fn pieces(&self) -> (pieces: &Vec<Hitmap>)
        ensures
            pieces@ == self@.pieces,
    {
        &self.pieces
    }

    /// Whether the packing counts as a solution: whether exactly three
    /// pieces are in it.
    pub fn is_solution(&self) -> (solution: bool)
        ensures
            solution == self@.is_solution(),
    {
        self.pieces.len() == 3
    }

    /// Packs `piece` into the cage. Where the piece shares a cell with the
    /// cage it does not fit; else the new cage holds it among the others.
    pub fn add(&self, piece: Hitmap) -> (added: Result<Cage, PieceDoesNotFit>)
        ensures
            added is Err <==> self@.hitmap.overlaps(piece),
            added matches Ok(cage) ==> {
                &&& cage@ == self@.with_piece(piece)
                &&& cage@.hitmap.0 == self@.hitmap.0 | piece.0
                &&& sorted_by(cage@.pieces, mask_order())
                &&& cage@.pieces.to_multiset() == self@.pieces.to_multiset().insert(piece)
            },
    {
        if self.hitmap.0 & piece.0 != 0 {
            return Err(PieceDoesNotFit);
        }
        let mut new_pieces = copy_pieces(&self.pieces);
        new_pieces.push(piece);
        proof {
            lemma_mask_order_total();
            new_pieces@.lemma_sort_by_ensures(mask_order());
            vstd::seq_lib::to_multiset_build(self.pieces@, piece);
        }
        let new_pieces = sort_pieces(new_pieces);

        Ok(Cage { hitmap: Hitmap(self.hitmap.0 | piece.0), pieces: new_pieces })
    }

    /// The representative of the cage among its turns by `rotations`: the
    /// turn with the smallest mask of cells. A turn takes the place of the
    /// best so far only where its mask is smaller.
    pub fn canonicalize(&self, rotations: &Vec<Rotation>) -> (canon: Cage)
        requires
            all_proper(rotations@),
        ensures
            canon@ == self@.canonical(rotations@),
            canon@ == self@ || exists|k: int|
                0 <= k < rotations.len() && canon@ == self@.rotated((#[trigger] rotations[k])@),
            canon@.hitmap.0 <= self@.hitmap.0,
            forall|k: int|
                0 <= k < rotations.len() ==> canon@.hitmap.0 <= self@.hitmap.rotated(
                    (#[trigger] rotations[k])@,
                ).0,
    {
        proof {
            lemma_canonical_among(self@, rotations@, rotations.len() as int);
        }
        let mut canon_cage = Cage { hitmap: self.hitmap, pieces: copy_pieces(&self.pieces) };
        let mut n: usize = 0;
        while n < rotations.len()
            invariant
                n <= rotations.len(),
                all_proper(rotations@),
                canon_cage@ == self@.canonical_among(rotations@, n as int),
            decreases rotations.len() - n,
        {
            let rotation = &rotations[n];
            let new_hitmap = self.hitmap.rotate(rotation);
            if new_hitmap.0 < canon_cage.hitmap.0 {
                let new_pieces = rotate_pieces(&self.pieces, rotation);
                canon_cage.hitmap = new_hitmap;
                canon_cage.pieces = new_pieces;
            }
            n += 1;
        }
        canon_cage
    }

    /// Whether the two cages have the same cells and the same list of pieces.
    pub fn same_as(&self, other: &Cage) -> (same: bool)
        ensures
            same == (self@ == other@),
    {
        if self.hitmap.0 != other.hitmap.0 || self.pieces.len() != other.pieces.len() {
            return false;
        }
        let mut n: usize = 0;
        while n < self.pieces.len()
            invariant
                n <= self.pieces.len(),
                self.pieces.len() == other.pieces.len(),
                forall|k: int| 0 <= k < n ==> self.pieces@[k] == other.pieces@[k],
            decreases self.pieces.len() - n,
        {
            if self.pieces[n].0 != other.pieces[n].0 {
                return false;
            }
            n += 1;
        }
        proof {
            assert(self.pieces@ =~= other.pieces@);
        }
        true
    }
}

/// Packing two pieces gives the same cage in either order: the same cells
/// and, as the pieces are kept sorted, the same list of pieces. And the two
/// pieces fit in one order exactly when they fit in the other.
pub proof fn lemma_add_commutes(cage: CageView, a: Hitmap, b: Hitmap)
    ensures
        cage.with_piece(a).with_piece(b) == cage.with_piece(b).with_piece(a),
        cage.with_piece(a).with_piece(b).hitmap == cage.hitmap.union(a).union(b),
        cage.fits(a) && cage.with_piece(a).fits(b) <==> cage.fits(b) && cage.with_piece(
            b,
        ).fits(a),
{
    lemma_union_either_order(cage.hitmap.0, a.0, b.0);
    let leq = mask_order();
    lemma_mask_order_total();
    let ab = cage.pieces.push(a).sort_by(leq).push(b);
    let ba = cage.pieces.push(b).sort_by(leq).push(a);
    cage.pieces.push(a).lemma_sort_by_ensures(leq);
    cage.pieces.push(b).lemma_sort_by_ensures(leq);
    ab.lemma_sort_by_ensures(leq);
    ba.lemma_sort_by_ensures(leq);
    vstd::seq_lib::to_multiset_build(cage.pieces, a);
    vstd::seq_lib::to_multiset_build(cage.pieces, b);
    vstd::seq_lib::to_multiset_build(cage.pieces.push(a).sort_by(leq), b);
    vstd::seq_lib::to_multiset_build(cage.pieces.push(b).sort_by(leq), a);
    assert(ab.to_multiset() =~= ba.to_multiset());
    lemma_sorted_unique(ab.sort_by(leq), ba.sort_by(leq), leq);
}

/// Turning a cage by the identity leaves it as it is.
pub proof fn lemma_cage_rotate_identity(cage: CageView)
    requires
        cage.wf(),
    ensures
        cage.rotated(identity()) == cage,
{
    lemma_rotate_identity(cage.hitmap);
    assert forall|k: int| 0 <= k < cage.pieces.len() implies cage.rotated(identity()).pieces[k]
        == cage.pieces[k] by {
        lemma_rotate_identity(cage.pieces[k]);
    }
    assert(cage.rotated(identity()).pieces =~= cage.pieces);
}

/// A cage turned by a proper rotation has only bits 0 to 26 set in its
/// masks.
pub proof fn lemma_cage_rotate_wf(cage: CageView, m: Mat3)
    requires
        is_rotation(m),
    ensures
        cage.rotated(m).wf(),
{
    let turn = cage.rotated(m);
    lemma_rotated_has(cage.hitmap, m, 0);
    assert forall|k: int| 0 <= k < turn.pieces.len() implies (#[trigger] turn.pieces[k]).wf() by {
        lemma_rotated_has(cage.pieces[k], m, 0);
    }
}

/// Turning a cage by `q` and then by `p` is turning it by the product
/// `p · q`.
pub proof fn lemma_cage_rotate_product(cage: CageView, p: Mat3, q: Mat3)
    requires
        is_rotation(p),
        is_rotation(q),
    ensures
        cage.rotated(q).rotated(p) == cage.rotated(mat_mul(p, q)),
{
    lemma_rotate_product(cage.hitmap, p, q);
    assert forall|k: int| 0 <= k < cage.pieces.len() implies cage.rotated(q).rotated(p).pieces[k]
        == cage.rotated(mat_mul(p, q)).pieces[k] by {
        lemma_rotate_product(cage.pieces[k], p, q);
    }
    assert(cage.rotated(q).rotated(p).pieces =~= cage.rotated(mat_mul(p, q)).pieces);
}

/// The best among the cage and its first `n` turns is the cage or one of
/// those turns, and no mask among them is smaller than its mask.
pub proof fn lemma_canonical_among(cage: CageView, rotations: Seq<Rotation>, n: int)
    requires
        0 <= n <= rotations.len(),
    ensures
        cage.canonical_among(rotations, n) == cage || exists|k: int|
            0 <= k < n && cage.canonical_among(rotations, n) == cage.rotated(
                (#[trigger] rotations[k])@,
            ),
        cage.canonical_among(rotations, n).hitmap.0 <= cage.hitmap.0,
        forall|k: int|
            0 <= k < n ==> cage.canonical_among(rotations, n).hitmap.0 <= cage.hitmap.rotated(
                (#[trigger] rotations[k])@,
            ).0,
    decreases n,
{
    if n > 0 {
        lemma_canonical_among(cage, rotations, n - 1);
        let best = cage.canonical_among(rotations, n - 1);
        let turned = cage.rotated(rotations[n - 1]@);
        if turned.hitmap.0 < best.hitmap.0 {
            assert(cage.canonical_among(rotations, n) == cage.rotated(rotations[n - 1]@));
        } else if best != cage {
            let k = choose|k: int|
                0 <= k < n - 1 && best == cage.rotated((#[trigger] rotations[k])@);
            assert(cage.canonical_among(rotations, n) == cage.rotated(rotations[k]@));
        }
    }
}

/// The representative of a cage is a turn of the cage by a proper rotation,
/// and no turn of the cage's cells by a proper rotation has a smaller mask.
pub proof fn lemma_canonical_is_least(cage: CageView, rotations: Seq<Rotation>, m: Mat3) -> (by:
    Mat3)
    requires
        is_rotation_group(rotations),
        cage.wf(),
        is_rotation(m),
    ensures
        is_rotation(by),
        cage.canonical(rotations) == cage.rotated(by),
        cage.canonical(rotations).wf(),
        cage.canonical(rotations).hitmap.0 <= cage.hitmap.rotated(m).0,
{
    let n = rotations.len() as int;
    lemma_canonical_among(cage, rotations, n);
    assert(holds_matrix(rotations, m));
    let j = choose|j: int| 0 <= j < rotations.len() && (#[trigger] rotations[j])@ == m;
    assert(cage.canonical(rotations).hitmap.0 <= cage.hitmap.rotated(rotations[j]@).0);
    let by = if cage.canonical(rotations) == cage {
        lemma_cage_rotate_identity(cage);
        lemma_identity_neutral(identity(), Point { x: 0, y: 0, z: 0 });
        identity()
    } else {
        let k = choose|k: int|
            0 <= k < n && cage.canonical(rotations) == cage.rotated((#[trigger] rotations[k])@);
        assert(rotations[k].wf());
        rotations[k]@
    };
    lemma_cage_rotate_wf(cage, by);
    by
}

/// A cage whose mask no turn makes smaller is its own representative.
proof fn lemma_least_is_canonical(cage: CageView, rotations: Seq<Rotation>, n: int)
    requires
        0 <= n <= rotations.len(),
        forall|k: int|
            0 <= k < n ==> cage.hitmap.0 <= cage.hitmap.rotated((#[trigger] rotations[k])@).0,
    ensures
        cage.canonical_among(rotations, n) == cage,
    decreases n,
{
    if n > 0 {
        lemma_least_is_canonical(cage, rotations, n - 1);
        assert(cage.hitmap.0 <= cage.hitmap.rotated(rotations[n - 1]@).0);
    }
}

/// Taking the representative is idempotent: the representative of a
/// representative is that representative.
pub proof fn lemma_canonical_idempotent(cage: CageView, rotations: Seq<Rotation>)
    requires
        is_rotation_group(rotations),
        cage.wf(),
    ensures
        cage.canonical(rotations).canonical(rotations) == cage.canonical(rotations),
{
    let canon = cage.canonical(rotations);
    lemma_identity_neutral(identity(), Point { x: 0, y: 0, z: 0 });
    let by = lemma_canonical_is_least(cage, rotations, identity());
    assert forall|k: int| 0 <= k < rotations.len() implies canon.hitmap.0
        <= canon.hitmap.rotated((#[trigger] rotations[k])@).0 by {
        let r = rotations[k]@;
        assert(rotations[k].wf());
        lemma_rotate_product(cage.hitmap, r, by);
        lemma_rotations_closed(r, by);
        lemma_canonical_is_least(cage, rotations, mat_mul(r, by));
    }
    lemma_least_is_canonical(canon, rotations, rotations.len() as int);
}

/// A cage and its turn by a proper rotation have representatives with the
/// same cells.
pub proof fn lemma_canonical_cells_of_turn(cage: CageView, rotations: Seq<Rotation>, m: Mat3)
    requires
        is_rotation_group(rotations),
        cage.wf(),
        is_rotation(m),
    ensures
        cage.rotated(m).canonical(rotations).hitmap == cage.canonical(rotations).hitmap,
{
    let turn = cage.rotated(m);
    lemma_identity_neutral(identity(), Point { x: 0, y: 0, z: 0 });
    let by = lemma_canonical_is_least(cage, rotations, identity());
    lemma_cage_rotate_identity(cage);
    lemma_cage_rotate_product(cage, identity(), m);
    lemma_identity_neutral(m, Point { x: 0, y: 0, z: 0 });
    lemma_cage_rotate_wf(cage, m);
    let by_turn = lemma_canonical_is_least(turn, rotations, identity());
    // The representative of the turn is a turn of the cage.
    lemma_cage_rotate_product(cage, by_turn, m);
    lemma_rotations_closed(by_turn, m);
    lemma_canonical_is_least(cage, rotations, mat_mul(by_turn, m));
    // The representative of the cage is a turn of the turn.
    lemma_transpose_inverts(m);
    let back = mat_mul(by, transpose(m));
    lemma_rotations_closed(by, transpose(m));
    lemma_rotate_product(cage.hitmap, back, m);
    lemma_mat_mul_associative(by, transpose(m), m);
    lemma_identity_neutral(by, Point { x: 0, y: 0, z: 0 });
    lemma_canonical_is_least(turn, rotations, back);
}

/// The representatives of a cage and of its turn by a proper rotation are
/// turns of each other, by a proper rotation that keeps their cells in
/// place.
pub proof fn lemma_canonical_up_to_symmetry(
    cage: CageView,
    rotations: Seq<Rotation>,
    m: Mat3,
) -> (s: Mat3)
    requires
        is_rotation_group(rotations),
        cage.wf(),
        is_rotation(m),
    ensures
        is_rotation(s),
        cage.canonical(rotations).hitmap.rotated(s) == cage.canonical(rotations).hitmap,
        cage.rotated(m).canonical(rotations) == cage.canonical(rotations).rotated(s),
{
    let turn = cage.rotated(m);
    let canon = cage.canonical(rotations);
    lemma_identity_neutral(identity(), Point { x: 0, y: 0, z: 0 });
    let by = lemma_canonical_is_least(cage, rotations, identity());
    lemma_cage_rotate_wf(cage, m);
    let by_turn = lemma_canonical_is_least(turn, rotations, identity());
    lemma_canonical_cells_of_turn(cage, rotations, m);
    // The representative of the turn is the cage turned by `whole`.
    let whole = mat_mul(by_turn, m);
    lemma_cage_rotate_product(cage, by_turn, m);
    lemma_rotations_closed(by_turn, m);
    // That is the representative of the cage turned by `s`.
    lemma_transpose_inverts(by);
    let s = mat_mul(whole, transpose(by));
    lemma_rotations_closed(whole, transpose(by));
    lemma_cage_rotate_product(cage, s, by);
    lemma_mat_mul_associative(whole, transpose(by), by);
    lemma_identity_neutral(whole, Point { x: 0, y: 0, z: 0 });
    assert(canon.rotated(s) == turn.canonical(rotations));
    s
}

/// Two cages that are turns of each other have the same representative,
/// where no proper rotation that keeps the representative's cells in place
/// moves its pieces. (Where one does, the two representatives can differ by
/// that rotation.)
pub proof fn lemma_canonical_of_turn(cage: CageView, rotations: Seq<Rotation>, m: Mat3)
    requires
        is_rotation_group(rotations),
        cage.wf(),
        is_rotation(m),
        forall|s: Mat3|
            is_rotation(s) && cage.canonical(rotations).hitmap.rotated(s) == cage.canonical(
                rotations,
            ).hitmap ==> #[trigger] cage.canonical(rotations).rotated(s) == cage.canonical(
                rotations,
            ),
    ensures
        cage.rotated(m).canonical(rotations) == cage.canonical(rotations),
{
    let s = lemma_canonical_up_to_symmetry(cage, rotations, m);
}

} // verus!
