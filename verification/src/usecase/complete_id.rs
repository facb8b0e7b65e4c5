//! Resolving a numeric ID prefix against the live-ID pool.

use vstd::prelude::*;

use crate::trie::TriePool;

verus! {

/// The typed prefix.
#[derive(Debug, PartialEq, Eq)]
pub struct Request {
    pub pattern: u64,
}

/// The unique live ID the prefix resolves to.
#[derive(Debug, PartialEq, Eq)]
pub struct Response {
    pub id: u64,
}

/// Failure of [`execute`]: no live ID starts with the pattern, or more than
/// one does.
#[derive(Debug, PartialEq, Eq)]
pub enum CompleteIdError {
    NotFound,
    Ambiguous,
}

/// Resolves the pattern: an exact live ID answers for itself; a unique live
/// extension completes the pattern; several extensions are ambiguous; none
/// is not-found.
pub fn execute(pool: &TriePool, request: Request) -> (r: Result<Response, CompleteIdError>)
    requires
        pool.wf(),
    ensures
        ({
            let p = request.pattern;
            &&& ((forall|m: u64| !pool.spec_matches(p, m)) <==> r == Err::<
                Response,
                CompleteIdError,
            >(CompleteIdError::NotFound))
            &&& (pool.has(p) ==> r == Ok::<Response, CompleteIdError>(Response { id: p }))
            &&& (!pool.has(p) ==> ((r matches Ok(resp) ==> pool.spec_matches(p, resp.id) && (
            forall|m: u64| pool.spec_matches(p, m) ==> m == resp.id)) && (r == Err::<
                Response,
                CompleteIdError,
            >(CompleteIdError::Ambiguous) <==> (exists|m1: u64, m2: u64|
                m1 != m2 && #[trigger] pool.spec_matches(p, m1) && #[trigger] pool.spec_matches(
                    p,
                    m2,
                )))))
        }),
{
    let ghost p = request.pattern;
    match pool.find(request.pattern) {
        Some(res) => {
            if res.len() == 1 {
                proof {
                    assert(res@.contains(res@[0]));
                    if !pool.has(p) {
                        assert forall|m: u64| pool.spec_matches(p, m) implies m == res@[0] by {
                            assert(res@.contains(m));
                            let k = choose|k: int| 0 <= k < res@.len() && res@[k] == m;
                            assert(k == 0);
                        }
                        assert(!(exists|m1: u64, m2: u64|
                            m1 != m2 && #[trigger] pool.spec_matches(p, m1)
                                && #[trigger] pool.spec_matches(p, m2))) by {
                            if exists|m1: u64, m2: u64|
                                m1 != m2 && #[trigger] pool.spec_matches(p, m1)
                                    && #[trigger] pool.spec_matches(p, m2) {
                                let (m1, m2) = choose|m1: u64, m2: u64|
                                    m1 != m2 && #[trigger] pool.spec_matches(p, m1)
                                        && #[trigger] pool.spec_matches(p, m2);
                                assert(m1 == res@[0] && m2 == res@[0]);
                            }
                        }
                    }
                }
                Ok(Response { id: res[0] })
            } else {
                proof {
                    assert(res@.len() >= 2);
                    if pool.has(p) {
                        assert(res@ == seq![p]);
                        assert(false);
                    }
                    assert(res@.contains(res@[0]));
                    assert(res@.contains(res@[1]));
                    assert(res@[0] != res@[1]);
                    assert(pool.spec_matches(p, res@[0]) && pool.spec_matches(p, res@[1]));
                }
                Err(CompleteIdError::Ambiguous)
            }
        },
        None => {
            proof {
                let dp = crate::trie::digits_of(p as nat);
                assert(dp.subrange(0, dp.len() as int) =~= dp);
                if pool.has(p) {
                    assert(pool.spec_matches(p, p));
                }
            }
            Err(CompleteIdError::NotFound)
        },
    }
}

} // verus!
