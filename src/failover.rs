use vstd::prelude::*;

verus! {

/// An attempt of `attempt` on `validator` may fail.
pub open spec fn may_fail<T, E, F: Fn(&String) -> Result<T, E>>(
    attempt: F,
    validator: String,
) -> bool {
    exists|e: E| attempt.ensures((&validator,), Err(e))
}

/// An attempt of `attempt` on `validator` may succeed.
pub open spec fn may_succeed<T, E, F: Fn(&String) -> Result<T, E>>(
    attempt: F,
    validator: String,
) -> bool {
    exists|v: T| attempt.ensures((&validator,), Ok(v))
}

/// Keeps the successes.
pub open spec fn succeeded() -> spec_fn(bool) -> bool {
    |b: bool| b
}

/// First success: tries the validators in list order and returns the first
/// result that succeeds, without trying the rest; `None` when every one
/// fails. Transport errors, bad statuses and malformed bodies are all
/// failures of one validator alike.
pub fn try_first_validator<T, E, F>(validators: &Vec<String>, attempt: F) -> (r: Option<T>) where
    F: Fn(&String) -> Result<T, E>,

    requires
        forall|i: int| 0 <= i < validators@.len() ==> attempt.requires((&validators@[i],)),
    ensures
        match r {
            Some(v) => exists|i: int|
                0 <= i < validators@.len() && attempt.ensures((&validators@[i],), Ok(v))
                    && forall|j: int| 0 <= j < i ==> may_fail(attempt, validators@[j]),
            None => forall|i: int| 0 <= i < validators@.len() ==> may_fail(attempt, validators@[i]),
        },
{
    let mut i: usize = 0;
    while i < validators.len()
        invariant
            i <= validators@.len(),
            forall|k: int| 0 <= k < validators@.len() ==> attempt.requires((&validators@[k],)),
            forall|j: int| 0 <= j < i ==> may_fail(attempt, validators@[j]),
        decreases validators@.len() - i,
    {
        let res = attempt(&validators[i]);
        match res {
            Ok(v) => {
                return Some(v);
            },
            Err(e) => {
                assert(attempt.ensures((&validators@[i as int],), Err(e)));
            },
        }
        i = i + 1;
    }
    None
}

/// Broadcast to all: tries every validator, whatever the others return,
/// and counts the successes.
pub fn try_all_validators<T, E, F>(validators: &Vec<String>, attempt: F) -> (count: usize) where
    F: Fn(&String) -> Result<T, E>,

    requires
        forall|i: int| 0 <= i < validators@.len() ==> attempt.requires((&validators@[i],)),
    ensures
        exists|oks: Seq<bool>|
            #![trigger oks.filter(succeeded())]
            oks.len() == validators@.len() && count == oks.filter(succeeded()).len() && forall|
                i: int,
            |
                0 <= i < oks.len() ==> (if #[trigger] oks[i] {
                    may_succeed(attempt, validators@[i])
                } else {
                    may_fail(attempt, validators@[i])
                }),
{
    let ghost mut oks: Seq<bool> = Seq::empty();
    let mut count: usize = 0;
    let mut i: usize = 0;
    while i < validators.len()
        invariant
            i <= validators@.len(),
            forall|k: int| 0 <= k < validators@.len() ==> attempt.requires((&validators@[k],)),
            oks.len() == i,
            count == oks.filter(succeeded()).len(),
            count <= i,
            forall|k: int|
                0 <= k < oks.len() ==> (if #[trigger] oks[k] {
                    may_succeed(attempt, validators@[k])
                } else {
                    may_fail(attempt, validators@[k])
                }),
        decreases validators@.len() - i,
    {
        let res = attempt(&validators[i]);
        let ok = match res {
            Ok(v) => {
                assert(attempt.ensures((&validators@[i as int],), Ok(v)));
                true
            },
            Err(e) => {
                assert(attempt.ensures((&validators@[i as int],), Err(e)));
                false
            },
        };
        proof {
            let next = oks.push(ok);
            crate::resource::lemma_filter_step(next, i as int, succeeded());
            assert(next.subrange(0, i as int) =~= oks);
            assert(next.subrange(0, i + 1) =~= next);
            oks = next;
        }
        if ok {
            count = count + 1;
        }
        i = i + 1;
    }
    count
}

} // verus!
