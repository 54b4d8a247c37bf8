//! Ordering a list of accounts.
use vstd::prelude::*;

use crate::error::Error;

verus! {

/// Each element below the next.
pub open spec fn strictly_sorted(s: Seq<u64>) -> bool {
    forall|i: int, j: int| 0 <= i < j < s.len() ==> s[i] < s[j]
}

/// Sorts a list of accounts in increasing order; an empty list, or one that
/// names an account twice, is refused.
pub fn sort_account_id(who: Vec<u64>) -> (r: Result<Vec<u64>, Error>)
    ensures
        who@.len() == 0 ==> r == Err::<Vec<u64>, Error>(Error::VecEmpty),
        who@.len() > 0 && !who@.no_duplicates() ==> r == Err::<Vec<u64>, Error>(
            Error::MemberDuplicate,
        ),
        who@.len() > 0 && who@.no_duplicates() ==> r.is_ok(),
        r.is_ok() ==> {
            let v = r.unwrap()@;
            &&& strictly_sorted(v)
            &&& v.len() == who@.len()
            &&& forall|x: u64| #[trigger] v.contains(x) == who@.contains(x)
        },
{
    if who.len() == 0 {
        return Err(Error::VecEmpty);
    }
    let mut new_who: Vec<u64> = Vec::new();
    let mut i: usize = 0;
    while i < who.len()
        invariant
            i <= who@.len(),
            new_who@.len() == i,
            strictly_sorted(new_who@),
            forall|x: u64| #[trigger] new_who@.contains(x) == who@.subrange(0, i as int).contains(x),
            who@.subrange(0, i as int).no_duplicates(),
        decreases who@.len() - i,
    {
        let x = who[i];
        let mut j: usize = 0;
        while j < new_who.len() && new_who[j] < x
            invariant
                j <= new_who@.len(),
                forall|k: int| 0 <= k < j ==> new_who@[k] < x,
            decreases new_who@.len() - j,
        {
            j = j + 1;
        }
        if j < new_who.len() && new_who[j] == x {
            proof {
                assert(new_who@.contains(x));
                assert(who@.subrange(0, i as int).contains(x));
                let k = choose|k: int| 0 <= k < i && who@.subrange(0, i as int)[k] == x;
                assert(who@[k] == who@[i as int]);
                assert(!who@.no_duplicates());
            }
            return Err(Error::MemberDuplicate);
        }
        let ghost old_new = new_who@;
        new_who.insert(j, x);
        proof {
            let s = new_who@;
            assert(s == old_new.insert(j as int, x));
            assert forall|a: int, b: int| 0 <= a < b < s.len() implies s[a] < s[b] by {
                if b < j {
                } else if b == j {
                } else if a < j {
                    assert(s[b] == old_new[b - 1]);
                } else if a == j {
                    assert(s[b] == old_new[b - 1]);
                    assert(old_new[j as int] >= x);
                    if b - 1 > j {
                        assert(old_new[j as int] < old_new[b - 1]);
                    }
                } else {
                    assert(s[a] == old_new[a - 1]);
                }
            }
            let sub1 = who@.subrange(0, i + 1);
            let sub0 = who@.subrange(0, i as int);
            assert(sub1 == sub0.push(x));
            assert forall|y: u64| #[trigger] s.contains(y) == sub1.contains(y) by {
                if s.contains(y) {
                    let k = choose|k: int| 0 <= k < s.len() && s[k] == y;
                    if k < j {
                        assert(old_new[k] == y);
                        assert(old_new.contains(y));
                    } else if k > j {
                        assert(old_new[k - 1] == y);
                        assert(old_new.contains(y));
                    }
                    if y != x {
                        assert(sub0.contains(y));
                        let m = choose|m: int| 0 <= m < sub0.len() && sub0[m] == y;
                        assert(sub1[m] == y);
                    } else {
                        assert(sub1[i as int] == y);
                    }
                }
                if sub1.contains(y) {
                    let m = choose|m: int| 0 <= m < sub1.len() && sub1[m] == y;
                    if m == i {
                        assert(s[j as int] == y);
                    } else {
                        assert(sub0[m] == y);
                        assert(old_new.contains(y));
                        let k = choose|k: int| 0 <= k < old_new.len() && old_new[k] == y;
                        if k < j {
                            assert(s[k] == y);
                        } else {
                            assert(s[k + 1] == y);
                        }
                    }
                }
            }
            assert(!sub0.contains(x)) by {
                if sub0.contains(x) {
                    assert(old_new.contains(x));
                    let k = choose|k: int| 0 <= k < old_new.len() && old_new[k] == x;
                    if k < j {
                        assert(old_new[k] < x);
                    } else if k > j {
                        assert(old_new[j as int] < old_new[k]);
                        assert(old_new[j as int] >= x);
                    }
                }
            }
            assert forall|a: int, b: int| 0 <= a < sub1.len() && 0 <= b < sub1.len() && a != b
                implies sub1[a] != sub1[b] by {
                if a == i {
                    assert(sub0[b] == sub1[b]);
                } else if b == i {
                    assert(sub0[a] == sub1[a]);
                }
            }
        }
        i = i + 1;
    }
    proof {
        assert(who@.subrange(0, who@.len() as int) == who@);
    }
    Ok(new_who)
}

} // verus!
