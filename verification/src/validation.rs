//! Range checks on configuration values.

use crate::double::Double;
use crate::error::{SCuiseiError, SCuiseiResult};
use crate::text::joined;
use vstd::prelude::*;

verus! {

/// One thing that is checked, what it is called, and what is said if it does not hold.
pub struct Check {
    pub valid: bool,
    pub name: Seq<char>,
    pub complaint: Seq<char>,
}

impl Check {
    /// `result` is `Ok` where the check holds, and else the complaint.
    pub open spec fn agrees(self, result: SCuiseiResult<()>) -> bool {
        match result {
            Ok(_) => self.valid,
            Err(error) => !self.valid && error is Config && error.message() == self.name
                + self.complaint,
        }
    }
}

/// `result` is `Ok` where all checks hold, and else the complaint of the first that does not.
pub open spec fn passes(result: SCuiseiResult<()>, checks: Seq<Check>) -> bool {
    match result {
        Ok(_) => forall|i: int| 0 <= i < checks.len() ==> (#[trigger] checks[i]).valid,
        Err(_) => exists|i: int|
            0 <= i < checks.len() && (#[trigger] checks[i]).agrees(result) && forall|j: int|
                0 <= j < i ==> (#[trigger] checks[j]).valid,
    }
}

pub open spec fn finite_nonnegative_check(name: Seq<char>, value: Double) -> Check {
    Check {
        valid: value.finite_nonnegative(),
        name,
        complaint: " must be a finite number greater than or equal to 0"@,
    }
}

pub open spec fn unit_interval_check(name: Seq<char>, value: Double) -> Check {
    Check {
        valid: value.in_unit_interval(),
        name,
        complaint: " must be a finite number between 0 and 1"@,
    }
}

pub open spec fn nonnegative_check(name: Seq<char>, value: i32) -> Check {
    Check { valid: value >= 0, name, complaint: " must be greater than or equal to 0"@ }
}

pub open spec fn positive_check(name: Seq<char>, value: usize) -> Check {
    Check { valid: value > 0, name, complaint: " must be greater than 0"@ }
}

fn refusal(name: &str, complaint: &str) -> (r: SCuiseiError)
    ensures
        r is Config,
        r.message() == name@ + complaint@,
{
    SCuiseiError::Config(joined(name, complaint))
}

pub fn validate_finite_nonnegative(name: &str, value: Double) -> (r: SCuiseiResult<()>)
    ensures
        finite_nonnegative_check(name@, value).agrees(r),
{
    if !value.is_finite() || value.lt(Double::zero()) {
        return Err(refusal(name, " must be a finite number greater than or equal to 0"));
    }
    Ok(())
}

pub fn validate_nonnegative_i32(name: &str, value: i32) -> (r: SCuiseiResult<()>)
    ensures
        nonnegative_check(name@, value).agrees(r),
{
    if value < 0 {
        return Err(refusal(name, " must be greater than or equal to 0"));
    }
    Ok(())
}

pub fn validate_positive_usize(name: &str, value: usize) -> (r: SCuiseiResult<()>)
    ensures
        positive_check(name@, value).agrees(r),
{
    if value == 0 {
        return Err(refusal(name, " must be greater than 0"));
    }
    Ok(())
}

pub fn validate_unit_interval(name: &str, value: Double) -> (r: SCuiseiResult<()>)
    ensures
        unit_interval_check(name@, value).agrees(r),
{
    if !value.is_finite() || value.lt(Double::zero()) || value.gt(Double::one()) {
        return Err(refusal(name, " must be a finite number between 0 and 1"));
    }
    Ok(())
}

/// What fails the first checks fails them all.
pub proof fn lemma_fails_early(result: SCuiseiResult<()>, first: Seq<Check>, all: Seq<Check>)
    requires
        result is Err,
        passes(result, first),
        first.len() <= all.len(),
        all.take(first.len() as int) =~= first,
    ensures
        passes(result, all),
{
    let i = choose|i: int|
        0 <= i < first.len() && (#[trigger] first[i]).agrees(result) && forall|j: int|
            0 <= j < i ==> (#[trigger] first[j]).valid;
    assert(all[i] == all.take(first.len() as int)[i]);
    assert forall|j: int| 0 <= j < i implies (#[trigger] all[j]).valid by {
        assert(all[j] == all.take(first.len() as int)[j]);
    }
}

/// Where the first checks hold, the rest decides.
pub proof fn lemma_passes_on(result: SCuiseiResult<()>, first: Seq<Check>, rest: Seq<Check>)
    requires
        passes(Ok(()), first),
        passes(result, rest),
    ensures
        passes(result, first + rest),
{
    let all = first + rest;
    match result {
        Ok(_) => {
            assert forall|i: int| 0 <= i < all.len() implies (#[trigger] all[i]).valid by {
                if i < first.len() {
                    assert(all[i] == first[i]);
                } else {
                    assert(all[i] == rest[i - first.len()]);
                }
            }
        },
        Err(_) => {
            let k = choose|i: int|
                0 <= i < rest.len() && (#[trigger] rest[i]).agrees(result) && forall|j: int|
                    0 <= j < i ==> (#[trigger] rest[j]).valid;
            let at = first.len() + k;
            assert(all[at] == rest[k]);
            assert forall|j: int| 0 <= j < at implies (#[trigger] all[j]).valid by {
                if j < first.len() {
                    assert(all[j] == first[j]);
                } else {
                    assert(all[j] == rest[j - first.len()]);
                }
            }
        },
    }
}

/// Checks come to one result: all pass, or the same complaint is made.
pub proof fn checks_are_decided(a: SCuiseiResult<()>, b: SCuiseiResult<()>, checks: Seq<Check>)
    requires
        passes(a, checks),
        passes(b, checks),
    ensures
        a is Ok <==> b is Ok,
        a matches Err(one) ==> b matches Err(other) && one.same_as(other) && one is Config,
{
    if a is Err && b is Err {
        let i = choose|i: int|
            0 <= i < checks.len() && (#[trigger] checks[i]).agrees(a) && forall|j: int|
                0 <= j < i ==> (#[trigger] checks[j]).valid;
        let k = choose|k: int|
            0 <= k < checks.len() && (#[trigger] checks[k]).agrees(b) && forall|j: int|
                0 <= j < k ==> (#[trigger] checks[j]).valid;
        assert(!checks[i].valid && !checks[k].valid);
    }
}

/// Checks that pass can be left out at the end.
pub proof fn lemma_fails_before(result: SCuiseiResult<()>, first: Seq<Check>, rest: Seq<Check>)
    requires
        passes(result, first + rest),
        result is Ok || passes(Ok(()), rest),
    ensures
        passes(result, first),
{
    let all = first + rest;
    match result {
        Ok(_) => {
            assert forall|i: int| 0 <= i < first.len() implies (#[trigger] first[i]).valid by {
                assert(all[i] == first[i]);
            }
        },
        Err(_) => {
            let i = choose|i: int|
                0 <= i < all.len() && (#[trigger] all[i]).agrees(result) && forall|j: int|
                    0 <= j < i ==> (#[trigger] all[j]).valid;
            if i >= first.len() {
                assert(rest[i - first.len()] == all[i]);
            }
            assert(first[i].agrees(result));
            assert forall|j: int| 0 <= j < i implies (#[trigger] first[j]).valid by {
                assert(all[j] == first[j]);
            }
        },
    }
}

/// Checks are made in their order: the complaint is that of the first one that does not hold, as
/// an error of configuration that names what was checked.
pub proof fn the_first_failing_check_is_reported(
    result: SCuiseiResult<()>,
    checks: Seq<Check>,
    i: int,
)
    requires
        passes(result, checks),
        0 <= i < checks.len(),
        !checks[i].valid,
        forall|j: int| 0 <= j < i ==> (#[trigger] checks[j]).valid,
    ensures
        result matches Err(SCuiseiError::Config(text)) && text@ == checks[i].name
            + checks[i].complaint,
{
    if result is Err {
        let k = choose|k: int|
            0 <= k < checks.len() && (#[trigger] checks[k]).agrees(result) && forall|j: int|
                0 <= j < k ==> (#[trigger] checks[j]).valid;
        assert(k == i);
    }
}

} // verus!
