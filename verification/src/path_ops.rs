//! In-place operations on cyclic paths.
//!
//! A tour is a cycle, so a stretch of it may run off the end of the vector
//! and wrap around to the front.  `reverse_slice` reverses such a stretch in
//! place — the edge move that local tour-improvement steps are built from.

use vstd::prelude::*;

verus! {

/// A position offset around the cycle, reduced once into `[0, len)`.
pub open spec fn wrap(len: int, p: int) -> int {
    if p >= len {
        p - len
    } else if p < 0 {
        p + len
    } else {
        p
    }
}

/// Number of positions on the cyclic stretch from `from_i` forward to
/// `to_i`, both ends included.
pub open spec fn seg_len(len: int, from_i: int, to_i: int) -> int {
    if from_i <= to_i {
        to_i - from_i + 1
    } else {
        len - from_i + to_i + 1
    }
}

/// Distinct offsets below the cycle length land on distinct positions.
proof fn lemma_wrap_injective(len: int, from: int, k1: int, k2: int)
    requires
        0 <= from < len,
        0 <= k1 < len,
        0 <= k2 < len,
        k1 != k2,
    ensures
        wrap(len, from + k1) != wrap(len, from + k2),
{
}

/// Writes one position of the path.
fn set_pos(p: &mut Vec<usize>, i: usize, x: usize)
    requires
        i < old(p)@.len(),
    ensures
        final(p)@ == old(p)@.update(i as int, x),
{
    let r = &mut p[i];
    *r = x;
}

/// Reverses, in place, the cyclic stretch of `path` that runs from
/// `from_i` forward — wrapping past the end of the vector — to `to_i`.
/// Positions outside the stretch keep their values.
pub fn reverse_slice(path: &mut Vec<usize>, from_i: usize, to_i: usize)
    requires
        from_i < old(path)@.len(),
        to_i < old(path)@.len(),
        from_i != to_i,
    ensures
        ({
            let len = old(path)@.len() as int;
            let seg = seg_len(len, from_i as int, to_i as int);
            &&& final(path)@.len() == old(path)@.len()
            &&& forall|k: int|
                0 <= k < seg ==> (#[trigger] final(path)@[wrap(len, from_i + k)]) == old(
                    path,
                )@[wrap(len, from_i + (seg - 1 - k))]
            &&& forall|k: int|
                seg <= k < len ==> (#[trigger] final(path)@[wrap(len, from_i + k)]) == old(
                    path,
                )@[wrap(len, from_i + k)]
        }),
{
    let len = path.len();
    let ghost orig = path@;
    let ghost gl = len as int;
    let ghost gf = from_i as int;
    let seg: usize = if from_i < to_i {
        to_i - from_i + 1
    } else {
        len - from_i + to_i + 1
    };
    let ghost gs = seg as int;
    let mut c: usize = 0;
    while c < seg / 2
        invariant
            len == path@.len(),
            len == orig.len(),
            from_i < len,
            to_i < len,
            from_i != to_i,
            gl == len as int,
            gf == from_i as int,
            gs == seg as int,
            gs == seg_len(gl, gf, to_i as int),
            2 <= gs <= gl,
            c <= seg / 2,
            forall|k: int|
                0 <= k < c ==> (#[trigger] path@[wrap(gl, gf + k)]) == orig[wrap(
                    gl,
                    gf + (gs - 1 - k),
                )],
            forall|k: int|
                gs - c <= k < gs ==> (#[trigger] path@[wrap(gl, gf + k)]) == orig[wrap(
                    gl,
                    gf + (gs - 1 - k),
                )],
            forall|k: int| c <= k < gs - c ==> (#[trigger] path@[wrap(gl, gf + k)]) == orig[wrap(
                gl,
                gf + k,
            )],
            forall|k: int| gs <= k < gl ==> (#[trigger] path@[wrap(gl, gf + k)]) == orig[wrap(
                gl,
                gf + k,
            )],
        decreases seg / 2 - c,
    {
        let ghost pre = path@;
        let i = if c < len - from_i {
            from_i + c
        } else {
            c - (len - from_i)
        };
        let off2 = seg - 1 - c;
        let j = if off2 < len - from_i {
            from_i + off2
        } else {
            off2 - (len - from_i)
        };
        proof {
            assert(i == wrap(gl, gf + c));
            assert(j == wrap(gl, gf + off2));
            lemma_wrap_injective(gl, gf, c as int, off2 as int);
        }
        let ti = path[i];
        let tj = path[j];
        set_pos(path, i, tj);
        set_pos(path, j, ti);
        c = c + 1;
        proof {
            assert forall|k: int| 0 <= k < gl && k != c - 1 && k != gs - c implies (
            #[trigger] path@[wrap(gl, gf + k)]) == pre[wrap(gl, gf + k)] by {
                lemma_wrap_injective(gl, gf, k, c - 1);
                lemma_wrap_injective(gl, gf, k, gs - c);
            }
            assert(path@[wrap(gl, gf + (c - 1))] == orig[wrap(gl, gf + (gs - c))]);
            assert(path@[wrap(gl, gf + (gs - c))] == orig[wrap(gl, gf + (c - 1))]);
        }
    }
    proof {
        assert forall|k: int| 0 <= k < gs implies (#[trigger] path@[wrap(gl, gf + k)]) == orig[wrap(
            gl,
            gf + (gs - 1 - k),
        )] by {
            if c <= k < gs - c {
                assert(k == gs - 1 - k);
            }
        }
    }
}

} // verus!
