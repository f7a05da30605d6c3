use vstd::prelude::*;

use crate::grid::N_CELLS;
use crate::piece::{Piece, Shape, shape_wf, rot_n, lemma_rot_wf, lemma_rotate_four_times};

verus! {

/// Lexicographic order on the cells of two grids.
pub open spec fn cells_lt(a: Seq<i8>, b: Seq<i8>) -> bool {
    exists|k: int| 0 <= k < a.len() && k < b.len() && a[k] < b[k] && a.take(k) == b.take(k)
}

/// Order on shapes: by cells, then by width, then by height.
pub open spec fn shape_lt(p: Shape, q: Shape) -> bool {
    ||| cells_lt(p.a, q.a)
    ||| (p.a == q.a && (p.w < q.w || (p.w == q.w && p.h < q.h)))
}

/// The shapes of a sequence of pieces.
pub open spec fn shapes(v: Seq<Piece>) -> Seq<Shape> {
    v.map_values(|p: Piece| p@)
}

/// `vs` holds each distinct quarter turn of `s` once, in increasing order.
pub open spec fn is_rotation_set(vs: Seq<Shape>, s: Shape) -> bool {
    &&& vs.no_duplicates()
    &&& forall|i: int| 0 <= i < vs.len() ==> is_turn_of(#[trigger] vs[i], s)
    &&& forall|k: nat| k < 4 ==> vs.contains(#[trigger] rot_n(s, k))
    &&& forall|i: int| 0 <= i < vs.len() - 1 ==> shape_lt(#[trigger] vs[i], vs[i + 1])
}

/// `x` is `s` turned by fewer than four quarters.
pub open spec fn is_turn_of(x: Shape, s: Shape) -> bool {
    exists|k: nat| k < 4 && x == #[trigger] rot_n(s, k)
}

/// `s` is the same shape after one, two or three quarter turns.
pub open spec fn has_rotational_symmetry(s: Shape) -> bool {
    exists|k: nat| 1 <= k < 4 && #[trigger] rot_n(s, k) == s
}

/// Three-way comparison of two pieces: negative when `p` comes first, zero
/// when they are the same shape, positive when `q` comes first.
pub fn compare(p: &Piece, q: &Piece) -> (r: i8)
    requires
        p.a@.len() == 256,
        q.a@.len() == 256,
    ensures
        r < 0 ==> shape_lt(p@, q@),
        r > 0 ==> shape_lt(q@, p@),
        r == 0 <==> p@ == q@,
{
    let mut i: usize = 0;
    while i < N_CELLS
        invariant
            i <= 256,
            p.a@.len() == 256,
            q.a@.len() == 256,
            p.a@.take(i as int) == q.a@.take(i as int),
        decreases 256 - i,
    {
        if p.a[i] != q.a[i] {
            proof {
                assert(p.a@[i as int] != q.a@[i as int]);
            }
            if p.a[i] < q.a[i] {
                assert(cells_lt(p.a@, q.a@));
                return -1;
            } else {
                assert(cells_lt(q.a@, p.a@));
                return 1;
            }
        }
        proof {
            assert(p.a@.take(i + 1) =~= p.a@.take(i as int).push(p.a@[i as int]));
            assert(q.a@.take(i + 1) =~= q.a@.take(i as int).push(q.a@[i as int]));
        }
        i = i + 1;
    }
    proof {
        assert(p.a@ =~= p.a@.take(256));
        assert(q.a@ =~= q.a@.take(256));
    }
    if p.w < q.w {
        -1
    } else if p.w > q.w {
        1
    } else if p.h < q.h {
        -1
    } else if p.h > q.h {
        1
    } else {
        0
    }
}

/// Adds `q` to the ordered, duplicate-free `v`, unless a piece of the same
/// shape is already there.
fn insert_shape(v: &mut Vec<Piece>, q: Piece)
    requires
        q.wf(),
        forall|i: int| 0 <= i < old(v).len() ==> (#[trigger] old(v)@[i]).wf(),
        shapes(old(v)@).no_duplicates(),
        forall|i: int|
            0 <= i < old(v).len() - 1 ==> shape_lt(#[trigger] shapes(old(v)@)[i], shapes(old(v)@)[i + 1]),
    ensures
        forall|i: int| 0 <= i < final(v).len() ==> (#[trigger] final(v)@[i]).wf(),
        shapes(final(v)@).no_duplicates(),
        forall|i: int|
            0 <= i < final(v).len() - 1 ==> shape_lt(#[trigger] shapes(final(v)@)[i], shapes(final(v)@)[i + 1]),
        forall|s: Shape|
            shapes(final(v)@).contains(s) <==> (shapes(old(v)@).contains(s) || s == q@),
{
    let ghost sv = shapes(v@);
    let mut i: usize = 0;
    while i < v.len()
        invariant
            i <= v.len(),
            v@ == old(v)@,
            q.wf(),
            forall|j: int| 0 <= j < v.len() ==> (#[trigger] v@[j]).wf(),
            forall|j: int| 0 <= j < i ==> (#[trigger] shapes(v@)[j]) != q@,
            shapes(old(v)@).no_duplicates(),
            forall|j: int|
                0 <= j < old(v).len() - 1 ==> shape_lt(#[trigger] shapes(old(v)@)[j], shapes(old(v)@)[j + 1]),
        decreases v.len() - i,
    {
        if compare(&v[i], &q) == 0 {
            proof {
                assert(shapes(v@)[i as int] == q@);
                assert forall|s: Shape| shapes(v@).contains(s) <==> (shapes(v@).contains(s) || s
                    == q@) by {
                    if s == q@ {
                        assert(shapes(v@)[i as int] == s);
                    }
                }
            }
            return;
        }
        i = i + 1;
    }
    let mut k: usize = 0;
    loop
        invariant_except_break
            k <= v.len(),
            v@ == old(v)@,
            forall|j: int| 0 <= j < k ==> shape_lt(#[trigger] shapes(v@)[j], q@),
            forall|j: int| 0 <= j < v.len() ==> (#[trigger] v@[j]).wf(),
            forall|j: int| 0 <= j < v.len() ==> (#[trigger] shapes(v@)[j]) != q@,
            q.wf(),
        ensures
            k <= v.len(),
            v@ == old(v)@,
            forall|j: int| 0 <= j < k ==> shape_lt(#[trigger] shapes(v@)[j], q@),
            k < v.len() ==> shape_lt(q@, shapes(v@)[k as int]),
        decreases v.len() - k,
    {
        if k >= v.len() {
            break;
        }
        let c = compare(&v[k], &q);
        if c > 0 {
            break;
        }
        assert(shapes(v@)[k as int] != q@);
        k = k + 1;
    }
    let ghost ov = v@;
    v.insert(k, q);
    proof {
        let nv = shapes(v@);
        assert(nv =~= sv.take(k as int).push(q@) + sv.skip(k as int));
        assert forall|a: int, b: int| 0 <= a < nv.len() && 0 <= b < nv.len() && a != b implies nv[a]
            != nv[b] by {
            if a != k && b != k {
                let a0 = if a < k { a } else { a - 1 };
                let b0 = if b < k { b } else { b - 1 };
                assert(sv[a0] != sv[b0]);
            }
        }
        assert forall|j: int| 0 <= j < nv.len() - 1 implies shape_lt(#[trigger] nv[j], nv[j + 1]) by {
            if j < k - 1 {
                assert(nv[j] == sv[j] && nv[j + 1] == sv[j + 1]);
            } else if j == k - 1 {
            } else if j == k {
            } else {
                assert(nv[j] == sv[j - 1] && nv[j + 1] == sv[j]);
            }
        }
        assert forall|s: Shape| nv.contains(s) <==> (sv.contains(s) || s == q@) by {
            if nv.contains(s) {
                let j = choose|j: int| 0 <= j < nv.len() && nv[j] == s;
                if j < k {
                    assert(sv[j] == s);
                } else if j > k {
                    assert(sv[j - 1] == s);
                }
            }
            if sv.contains(s) {
                let j = choose|j: int| 0 <= j < sv.len() && sv[j] == s;
                if j < k {
                    assert(nv[j] == s);
                } else {
                    assert(nv[j + 1] == s);
                }
            }
            if s == q@ {
                assert(nv[k as int] == s);
            }
        }
        assert forall|j: int| 0 <= j < v.len() implies (#[trigger] v@[j]).wf() by {
            if j < k {
                assert(v@[j] == ov[j]);
            } else if j > k {
                assert(v@[j] == ov[j - 1]);
            }
        }
    }
}

/// Any number of quarter turns keeps a shape well-formed.
pub proof fn lemma_rot_n_wf(s: Shape, k: nat)
    requires
        shape_wf(s),
    ensures
        shape_wf(rot_n(s, k)),
    decreases k,
{
    if k > 0 {
        lemma_rot_n_wf(s, (k - 1) as nat);
        lemma_rot_wf(rot_n(s, (k - 1) as nat));
    }
}

/// Turning by `a` quarters, then by `b` more, is turning by `a + b`.
pub proof fn lemma_rot_n_add(s: Shape, a: nat, b: nat)
    ensures
        rot_n(rot_n(s, a), b) == rot_n(s, a + b),
    decreases b,
{
    if b > 0 {
        lemma_rot_n_add(s, a, (b - 1) as nat);
    }
}

/// Two of the first four turns of `s` coincide only if `s` is symmetric.
proof fn lemma_equal_turns(s: Shape, i: nat, j: nat)
    requires
        shape_wf(s),
        i < j < 4,
        rot_n(s, i) == rot_n(s, j),
    ensures
        has_rotational_symmetry(s),
{
    let d = (4 - j) as nat;
    lemma_rot_n_add(s, i, d);
    lemma_rot_n_add(s, j, d);
    lemma_rotate_four_times(s);
    assert(rot_n(s, (i + d) as nat) == s);
}

/// The set of quarter turns of a piece has at most four shapes, and fewer
/// than four exactly when the piece is symmetric under some turn.
pub proof fn lemma_rotation_count(vs: Seq<Shape>, s: Shape)
    requires
        shape_wf(s),
        is_rotation_set(vs, s),
    ensures
        vs.len() <= 4,
        vs.len() < 4 <==> has_rotational_symmetry(s),
{
    let r0 = rot_n(s, 0);
    let r1 = rot_n(s, 1);
    let r2 = rot_n(s, 2);
    let r3 = rot_n(s, 3);
    let all = set![r0, r1, r2, r3];
    assert(vs.to_set() =~= all) by {
        assert forall|x: Shape| vs.to_set().contains(x) implies all.contains(x) by {
            let i = choose|i: int| 0 <= i < vs.len() && vs[i] == x;
            assert(is_turn_of(vs[i], s));
            let k = choose|k: nat| k < 4 && vs[i] == rot_n(s, k);
            assert(k == 0 || k == 1 || k == 2 || k == 3);
        }
        assert forall|x: Shape| all.contains(x) implies vs.to_set().contains(x) by {
            if x == r0 {
                assert(vs.contains(rot_n(s, 0)));
            } else if x == r1 {
                assert(vs.contains(rot_n(s, 1)));
            } else if x == r2 {
                assert(vs.contains(rot_n(s, 2)));
            } else {
                assert(vs.contains(rot_n(s, 3)));
            }
        }
    }
    vs.unique_seq_to_set();
    assert(r0 == s);
    if has_rotational_symmetry(s) {
        let k = choose|k: nat| 1 <= k < 4 && #[trigger] rot_n(s, k) == s;
        assert(k == 1 || k == 2 || k == 3);
        assert(all.len() < 4);
    } else {
        if r0 == r1 { lemma_equal_turns(s, 0, 1); }
        if r0 == r2 { lemma_equal_turns(s, 0, 2); }
        if r0 == r3 { lemma_equal_turns(s, 0, 3); }
        if r1 == r2 { lemma_equal_turns(s, 1, 2); }
        if r1 == r3 { lemma_equal_turns(s, 1, 3); }
        if r2 == r3 { lemma_equal_turns(s, 2, 3); }
        assert(all.len() == 4);
    }
}

/// For each piece, its distinct quarter turns in increasing order.
pub fn pieces_with_rotations(pieces: Vec<Piece>) -> (r: Vec<Vec<Piece>>)
    requires
        forall|i: int| 0 <= i < pieces.len() ==> (#[trigger] pieces@[i]).wf(),
    ensures
        r.len() == pieces.len(),
        forall|i: int|
            0 <= i < r.len() ==> is_rotation_set(shapes(#[trigger] r@[i]@), pieces@[i]@),
        forall|i: int, j: int|
            0 <= i < r.len() && 0 <= j < r@[i].len() ==> (#[trigger] r@[i]@[j]).wf(),
{
    let ghost orig = pieces@;
    let mut rest = pieces;
    let mut res: Vec<Vec<Piece>> = Vec::new();
    while rest.len() > 0
        invariant
            res.len() + rest.len() == orig.len(),
            rest@ == orig.skip(res.len() as int),
            forall|i: int| 0 <= i < orig.len() ==> (#[trigger] orig[i]).wf(),
            forall|i: int|
                0 <= i < res.len() ==> is_rotation_set(shapes(#[trigger] res@[i]@), orig[i]@),
            forall|i: int, j: int|
                0 <= i < res.len() && 0 <= j < res@[i].len() ==> (#[trigger] res@[i]@[j]).wf(),
        decreases rest.len(),
    {
        let p = rest.remove(0);
        let ghost s = p@;
        assert(p == orig[res.len() as int]);
        let mut rotas: Vec<Piece> = Vec::new();
        let mut pp = p;
        let mut t: usize = 0;
        while t < 4
            invariant
                t <= 4,
                shape_wf(s),
                pp.wf(),
                pp@ == rot_n(s, t as nat),
                forall|i: int| 0 <= i < rotas.len() ==> (#[trigger] rotas@[i]).wf(),
                shapes(rotas@).no_duplicates(),
                forall|i: int|
                    0 <= i < rotas.len() - 1 ==> shape_lt(#[trigger] shapes(rotas@)[i], shapes(rotas@)[i + 1]),
                forall|x: Shape|
                    shapes(rotas@).contains(x) <==> exists|k: nat| k < t && x == #[trigger] rot_n(s, k),
            decreases 4 - t,
        {
            let next = pp.rotate();
            let ghost prev = shapes(rotas@);
            let ghost cur = pp@;
            insert_shape(&mut rotas, pp);
            pp = next;
            proof {
                assert forall|x: Shape| shapes(rotas@).contains(x) <==> exists|k: nat|
                    k < t + 1 && x == #[trigger] rot_n(s, k) by {
                    if x == cur {
                        assert(x == rot_n(s, t as nat));
                    }
                    if exists|k: nat| k < t + 1 && x == #[trigger] rot_n(s, k) {
                        let k = choose|k: nat| k < t + 1 && x == #[trigger] rot_n(s, k);
                        if k < t {
                            assert(prev.contains(x));
                        }
                    }
                }
            }
            t = t + 1;
        }
        proof {
            let vs = shapes(rotas@);
            assert forall|i: int| 0 <= i < vs.len() implies is_turn_of(#[trigger] vs[i], s) by {
                assert(vs.contains(vs[i]));
            }
            assert(t == 4);
            assert forall|k: nat| k < 4 implies vs.contains(#[trigger] rot_n(s, k)) by {
                let x = rot_n(s, k);
                assert(k < t && x == rot_n(s, k));
                assert(exists|kk: nat| kk < t && x == #[trigger] rot_n(s, kk));
            }
            assert(s == orig[res.len() as int]@);
            assert(is_rotation_set(vs, s));
        }
        let ghost old_res = res@;
        res.push(rotas);
        proof {
            assert(rest@ =~= orig.skip(res.len() as int));
            assert forall|i: int| 0 <= i < res.len() implies is_rotation_set(
                shapes(#[trigger] res@[i]@),
                orig[i]@,
            ) by {
                if i < old_res.len() {
                    assert(res@[i] == old_res[i]);
                }
            }
        }
    }
    res
}

} // verus!
