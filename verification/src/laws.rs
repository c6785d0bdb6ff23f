use vstd::prelude::*;
use crate::check::{
    all_ok, check_post, count_for, first_bad, lemma_count_for_absent, outcome_ok, outcome_records,
    CheckError, LookupOutcome,
};
use crate::digest::digest_of;
use crate::partition::{
    in_groups, lemma_pair_order_total, lemma_partition_slots, pair_order, partition_of,
    sorted_pairs, spec_groups, spec_pairs, suffix5,
};

verus! {

/// Determinism: one secret, one Digest. Hashing the same characters twice —
/// in one run or in different runs — yields the same Digest, as the Digest
/// is a function of the characters alone.
pub proof fn lemma_digest_deterministic(s1: Seq<char>, s2: Seq<char>)
    requires
        s1 == s2,
    ensures
        digest_of(s1) == digest_of(s2),
{
}

/// Secret `i` was counted through the Group that holds its Identifier:
/// `out[i]` is the count its Digest Suffix has in that Group's page.
pub open spec fn counted_in_group(
    pw: Seq<Seq<char>>,
    outs: Seq<LookupOutcome>,
    out: Seq<u64>,
    i: int,
) -> bool {
    exists|k: int, w: int|
        {
            &&& 0 <= k < partition_of(pw).len()
            &&& 0 <= w < partition_of(pw)[k].len()
            &&& #[trigger] partition_of(pw)[k][w] == (digest_of(pw[i]), i as usize)
            &&& out[i] == count_for(outcome_records(outs[k]), suffix5(digest_of(pw[i])))
        }
}

/// Coverage: a successful check answers with exactly one count per secret,
/// and `out[i]` is the occurrence count belonging to secret `i`.
pub proof fn lemma_check_coverage(
    pw: Seq<Seq<char>>,
    outs: Seq<LookupOutcome>,
    r: Result<Vec<u64>, CheckError>,
)
    requires
        pw.len() <= usize::MAX,
        check_post(pw, outs, r),
        r is Ok,
    ensures
        r->Ok_0@.len() == pw.len(),
        forall|i: int| 0 <= i < pw.len() ==> #[trigger] counted_in_group(pw, outs, r->Ok_0@, i),
{
    lemma_partition_slots(pw);
    let gs = partition_of(pw);
    let out = r->Ok_0@;
    assert forall|i: int| 0 <= i < pw.len() implies #[trigger] counted_in_group(
        pw,
        outs,
        out,
        i,
    ) by {
        assert(in_groups(gs, pw, i));
        let (k, w) = choose|k: int, w: int|
            0 <= k < gs.len() && 0 <= w < gs[k].len() && #[trigger] gs[k][w] == (
                digest_of(pw[i]),
                i as usize,
            );
        assert(out[gs[k][w].1 as int] == count_for(
            outcome_records(outs[k]),
            suffix5(gs[k][w].0),
        ));
    }
}

/// The observable content of a check error: which kind, for which Prefix.
pub open spec fn error_view(e: CheckError) -> (bool, Seq<char>) {
    match e {
        CheckError::Transport { prefix } => (true, prefix@),
        CheckError::Malformed { prefix } => (false, prefix@),
    }
}

/// Idempotence: running the full check twice on the same secrets with the
/// same lookup answers yields the same output — success or failure alike, the same
/// counts, or an error of the same kind naming the same Prefix.
pub proof fn lemma_check_idempotent(
    pw: Seq<Seq<char>>,
    outs: Seq<LookupOutcome>,
    r1: Result<Vec<u64>, CheckError>,
    r2: Result<Vec<u64>, CheckError>,
)
    requires
        pw.len() <= usize::MAX,
        check_post(pw, outs, r1),
        check_post(pw, outs, r2),
    ensures
        r1 is Ok <==> r2 is Ok,
        r1 is Ok && r2 is Ok ==> r1->Ok_0@ == r2->Ok_0@,
        r1 is Err && r2 is Err ==> error_view(r1->Err_0) == error_view(r2->Err_0),
{
    if r1 is Ok && r2 is Ok {
        lemma_check_coverage(pw, outs, r1);
        lemma_check_coverage(pw, outs, r2);
        let out1 = r1->Ok_0@;
        let out2 = r2->Ok_0@;
        assert forall|i: int| 0 <= i < out1.len() implies out1[i] == out2[i] by {
            assert(counted_in_group(pw, outs, out1, i));
            assert(counted_in_group(pw, outs, out2, i));
        }
        assert(out1 =~= out2);
    }
}

/// Empty input: no secrets, no Groups, so not a single lookup is owed, and
/// the check returns an empty result.
pub proof fn lemma_empty_input(
    pw: Seq<Seq<char>>,
    outs: Seq<LookupOutcome>,
    r: Result<Vec<u64>, CheckError>,
)
    requires
        pw.len() == 0,
        outs.len() == partition_of(pw).len(),
        check_post(pw, outs, r),
    ensures
        partition_of(pw).len() == 0,
        r is Ok,
        r->Ok_0@ == Seq::<u64>::empty(),
{
    broadcast use vstd::seq_lib::group_to_multiset_ensures;

    lemma_pair_order_total();
    spec_pairs(pw).lemma_sort_by_ensures(pair_order());
    assert(spec_pairs(pw).len() == 0);
    assert(sorted_pairs(pw).to_multiset().len() == 0);
    assert(sorted_pairs(pw).len() == 0);
    assert(spec_groups(sorted_pairs(pw)) == Seq::<Seq<(Seq<char>, usize)>>::empty());
    assert(r is Ok);
    assert(r->Ok_0@ =~= Seq::<u64>::empty());
}

/// No matches: when no record of any page carries any secret's Digest
/// Suffix, every occurrence count is 0.
pub proof fn lemma_no_matches(
    pw: Seq<Seq<char>>,
    outs: Seq<LookupOutcome>,
    r: Result<Vec<u64>, CheckError>,
)
    requires
        pw.len() <= usize::MAX,
        outs.len() == partition_of(pw).len(),
        check_post(pw, outs, r),
        r is Ok,
        forall|k: int, t: int, i: int|
            0 <= k < outs.len() && 0 <= t < outcome_records(outs[k]).len() && 0 <= i < pw.len()
                ==> (#[trigger] outcome_records(outs[k])[t]).0 != suffix5(
                #[trigger] digest_of(pw[i]),
            ),
    ensures
        forall|i: int| 0 <= i < pw.len() ==> r->Ok_0@[i] == 0,
{
    lemma_check_coverage(pw, outs, r);
    let out = r->Ok_0@;
    assert forall|i: int| 0 <= i < pw.len() implies out[i] == 0 by {
        assert(counted_in_group(pw, outs, out, i));
        let (k, w) = choose|k: int, w: int|
            {
                &&& 0 <= k < partition_of(pw).len()
                &&& 0 <= w < partition_of(pw)[k].len()
                &&& #[trigger] partition_of(pw)[k][w] == (digest_of(pw[i]), i as usize)
                &&& out[i] == count_for(outcome_records(outs[k]), suffix5(digest_of(pw[i])))
            };
        let records = outcome_records(outs[k]);
        assert forall|t: int| 0 <= t < records.len() implies (#[trigger] records[t]).0 != suffix5(
            digest_of(pw[i]),
        ) by {}
        lemma_count_for_absent(records, suffix5(digest_of(pw[i])));
    }
}

/// Failure propagation: when any Group's lookup fails, the whole check
/// fails, naming the first bad Group's Prefix — even though other Groups'
/// lookups succeeded.
pub proof fn lemma_failure_propagates(
    pw: Seq<Seq<char>>,
    outs: Seq<LookupOutcome>,
    r: Result<Vec<u64>, CheckError>,
    k: int,
)
    requires
        check_post(pw, outs, r),
        0 <= k < outs.len(),
        !outcome_ok(outs[k]),
    ensures
        r is Err,
        0 <= first_bad(outs) < outs.len(),
        !outcome_ok(outs[first_bad(outs)]),
{
    assert(!all_ok(outs));
}

} // verus!

