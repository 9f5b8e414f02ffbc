use vstd::prelude::*;

verus! {

/// All ways of picking `k` of the given values in order; with nothing to
/// pick from or nothing to pick, the one empty selection.
pub fn combinations(arr: &[i32], k: usize) -> (r: Vec<Vec<i32>>)
    ensures
        arr@.len() == 0 || k == 0 ==> r@.len() == 1 && r@[0]@.len() == 0,
        arr@.len() > 0 && k > 0 ==> forall|i: int| 0 <= i < r@.len() ==> (#[trigger] r@[i])@.len()
            == k,
{
    if arr.len() == 0 || k == 0 {
        let mut out: Vec<Vec<i32>> = Vec::new();
        out.push(Vec::new());
        return out;
    }
    let mut out: Vec<Vec<i32>> = Vec::new();
    cmb(arr, k, 1, Vec::new(), &mut out);
    out
}

/// Extends each partial selection in `buf` by every later element,
/// collecting the full `k`-element selections.
fn cmb(arr: &[i32], k: usize, cur: usize, buf: Vec<i32>, out: &mut Vec<Vec<i32>>)
    requires
        buf@.len() <= k,
        forall|i: int| 0 <= i < old(out)@.len() ==> (#[trigger] old(out)@[i])@.len() == k,
    ensures
        forall|i: int| 0 <= i < final(out)@.len() ==> (#[trigger] final(out)@[i])@.len() == k,
    decreases arr@.len(),
{
    if buf.len() == k {
        out.push(buf);
        return ;
    }
    let mut x: usize = 0;
    while x < arr.len()
        invariant
            buf@.len() < k,
            x <= arr@.len(),
            forall|i: int| 0 <= i < out@.len() ==> (#[trigger] out@[i])@.len() == k,
        decreases arr@.len() - x,
    {
        let mut to_send: Vec<i32> = Vec::new();
        let mut j: usize = 0;
        while j < buf.len()
            invariant
                j <= buf@.len(),
                to_send@ == buf@.take(j as int),
            decreases buf@.len() - j,
        {
            let b = buf[j];
            to_send.push(b);
            j = j + 1;
            proof {
                assert(to_send@ =~= buf@.take(j as int));
            }
        }
        proof {
            assert(to_send@ =~= buf@);
        }
        to_send.push(arr[x]);
        let rest = vstd::slice::slice_subrange(arr, x + 1, arr.len());
        cmb(rest, k, 1, to_send, out);
        x = x + 1;
    }
}

} // verus!
