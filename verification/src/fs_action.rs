//! Placing files into the output folders without overwriting.

use vstd::prelude::*;
use crate::path_text::{collision_candidate, collision_name};

verus! {

/// Counts of one placement pass.
pub struct ActionResult {
    pub good_count: usize,
    pub rejected_count: usize,
    pub errors: Vec<String>,
}

/// The `k`-th name tried for `name`: the name itself first, then
/// `stem (2).ext`, `stem (3).ext`, and so on.
pub open spec fn candidate_name(name: Seq<char>, k: nat) -> Seq<char> {
    if k == 0 {
        name
    } else {
        collision_name(name, k + 1)
    }
}

/// `taken` reported each of the first `k` candidate names as taken.
pub open spec fn all_taken_below<F: Fn(&str) -> bool>(taken: F, name: Seq<char>, k: nat) -> bool {
    forall|j: nat|
        #![trigger candidate_name(name, j)]
        j < k ==> exists|s: &str| #[trigger] taken.ensures((s,), true) && s@ == candidate_name(name, j)
}

/// The first candidate name that `taken` reports free. `taken` answers
/// whether a name already exists in the destination folder; the search
/// gives up with an error only if every numbered name is taken.
pub fn unique_name<F: Fn(&str) -> bool>(file_name: &str, taken: F) -> (r: Result<String, String>)
    requires
        forall|s: &str| #[trigger] taken.requires((s,)),
    ensures
        r matches Ok(c) ==> exists|k: nat|
            #![trigger candidate_name(file_name@, k)]
            c@ == candidate_name(file_name@, k) && (exists|s: &str| #[trigger] taken.ensures((s,), false)
                && s@ == c@) && all_taken_below(taken, file_name@, k),
        r matches Err(e) ==> e@ == "ASPEN-FS-NAME: no free file name"@ && all_taken_below(
            taken,
            file_name@,
            u64::MAX as nat,
        ),
{
    if !taken(file_name) {
        proof {
            assert(file_name@ == candidate_name(file_name@, 0));
        }
        return Ok(crate::text::string_from_chars(crate::text::chars_of(file_name).as_slice()));
    }
    let mut n: u64 = 2;
    proof {
        assert forall|j: nat| #![trigger candidate_name(file_name@, j)] j < 1 implies exists|s: &str|
            #[trigger] taken.ensures((s,), true) && s@ == candidate_name(file_name@, j) by {
            assert(taken.ensures((file_name,), true));
        }
    }
    loop
        invariant
            2 <= n,
            forall|s: &str| #[trigger] taken.requires((s,)),
            all_taken_below(taken, file_name@, (n - 1) as nat),
        decreases u64::MAX - n,
    {
        let candidate = collision_candidate(file_name, n);
        proof {
            assert(candidate@ == candidate_name(file_name@, (n - 1) as nat));
        }
        let cs = candidate.as_str();
        if !taken(cs) {
            proof {
                assert(taken.ensures((cs,), false));
                assert(cs@ == candidate@);
            }
            return Ok(candidate);
        }
        proof {
            assert forall|j: nat| #![trigger candidate_name(file_name@, j)] j < n as nat implies exists|s: &str|
                #[trigger] taken.ensures((s,), true) && s@ == candidate_name(file_name@, j) by {
                if j == (n - 1) as nat {
                    assert(taken.ensures((cs,), true));
                } else {
                    assert(all_taken_below(taken, file_name@, (n - 1) as nat));
                    let _ = candidate_name(file_name@, j);
                }
            }
        }
        if n == u64::MAX {
            return Err(String::from_str("ASPEN-FS-NAME: no free file name"));
        }
        n = n + 1;
    }
}

} // verus!
