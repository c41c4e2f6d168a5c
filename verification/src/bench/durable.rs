//! What the durable bulk benchmark writes: equal batches of numbered posts.
use crate::support::num_text::{decimal, u64_text};
use crate::support::text::join2;
use vstd::prelude::*;

verus! {

/// How many rows a commit holds, and how many rows all commits hold together. There is no plan
/// where a commit would be empty.
pub fn plan_batches(total: usize, num_batches: usize) -> (r: Option<(usize, usize)>)
    ensures
        ({
            let n: int = if num_batches < 1 {
                1
            } else {
                num_batches as int
            };
            match r {
                Some((per_batch, rows)) => total >= n && per_batch == total as int / n && rows == per_batch * n && 0
                    < rows <= total && total - rows < n,
                None => total < n,
            }
        }),
{
    let n: usize = if num_batches < 1 {
        1
    } else {
        num_batches
    };
    if total < n {
        return None;
    }
    let per_batch: usize = total / n;
    proof {
        let q = per_batch as int;
        vstd::arithmetic::div_mod::lemma_fundamental_div_mod(total as int, n as int);
        vstd::arithmetic::div_mod::lemma_mod_bound(total as int, n as int);
        assert(n * q == q * n) by (nonlinear_arith);
        assert(q >= 1) by (nonlinear_arith)
            requires
                n >= 1,
                total >= n,
                total < n * q + n,
        ;
        assert(q * n >= 1) by (nonlinear_arith)
            requires
                q >= 1,
                n >= 1,
        ;
    }
    Some((per_batch, per_batch * n))
}

/// One post of a batch.
#[derive(Debug)]
pub struct Post {
    pub id: u64,
    pub slug: String,
    pub title: String,
}

/// Whether a post is the one with this number.
pub open spec fn is_post(p: Post, id: int) -> bool {
    p.id == id && p.slug@ == "post-"@ + decimal(id as nat) && p.title@ == "Title "@ + decimal(id as nat)
}

/// `count` posts, numbered from `start_id` on.
pub fn build_batch(start_id: u64, count: usize) -> (r: Vec<Post>)
    requires
        start_id + count <= u64::MAX,
    ensures
        r@.len() == count,
        forall|i: int| 0 <= i < count ==> is_post(#[trigger] r@[i], start_id + i),
{
    let mut out: Vec<Post> = Vec::new();
    let mut i: usize = 0;
    while i < count
        invariant
            0 <= i <= count,
            start_id + count <= u64::MAX,
            out@.len() == i,
            forall|k: int| 0 <= k < i ==> is_post(#[trigger] out@[k], start_id + k),
        decreases count - i,
    {
        let id: u64 = start_id + i as u64;
        let number = u64_text(id);
        out.push(Post { id, slug: join2("post-", number.as_str()), title: join2("Title ", number.as_str()) });
        i += 1;
    }
    out
}

} // verus!
