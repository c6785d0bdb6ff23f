use vstd::prelude::*;
use vstd::string::*;
use crate::digest::digest_of;
use crate::page::{parse_page, pwned_suffixes, records_view};
use crate::partition::{
    all_len40, gview, hashed_passwords, lemma_partition_slots, lemma_partition_wf, pair_view,
    pairs_view, partition_of, prefix5, sorted_pairs, suffix5, views_of,
};

verus! {

/// What one lookup came back as: the page the Lookup Client returned for a
/// Prefix, or the fact that the Prefix could not be resolved at all.
pub enum LookupOutcome {
    Page(String),
    TransportFailure,
}

/// Why a check failed, and for which Prefix: the lookup could not be carried
/// out, or it answered with a malformed page.
pub enum CheckError {
    Transport { prefix: String },
    Malformed { prefix: String },
}

/// An outcome that lets the check proceed: a page that parses.
pub open spec fn outcome_ok(o: LookupOutcome) -> bool {
    match o {
        LookupOutcome::Page(t) => parse_page(t@) is Some,
        LookupOutcome::TransportFailure => false,
    }
}

/// The records a good outcome carries.
pub open spec fn outcome_records(o: LookupOutcome) -> Seq<(Seq<char>, u64)> {
    match o {
        LookupOutcome::Page(t) => parse_page(t@)->0,
        LookupOutcome::TransportFailure => seq![],
    }
}

/// Every Group's lookup came back good.
pub open spec fn all_ok(outs: Seq<LookupOutcome>) -> bool {
    forall|k: int| 0 <= k < outs.len() ==> outcome_ok(#[trigger] outs[k])
}

/// The first Group (in Group order) whose lookup went bad; `outs.len()` when
/// none did.
pub open spec fn first_bad(outs: Seq<LookupOutcome>) -> int
    decreases outs.len(),
{
    if outs.len() == 0 {
        0
    } else if !outcome_ok(outs[0]) {
        0
    } else {
        1 + first_bad(outs.drop_first())
    }
}

/// `first_bad` answers the first bad index.
proof fn lemma_first_bad_is(outs: Seq<LookupOutcome>, k: int)
    requires
        0 <= k <= outs.len(),
        forall|t: int| 0 <= t < k ==> outcome_ok(#[trigger] outs[t]),
        k == outs.len() || !outcome_ok(outs[k]),
    ensures
        first_bad(outs) == k,
    decreases outs.len(),
{
    if outs.len() > 0 && outcome_ok(outs[0]) {
        assert(k >= 1);
        assert forall|t: int| 0 <= t < k - 1 implies outcome_ok(
            #[trigger] outs.drop_first()[t],
        ) by {
            assert(outs.drop_first()[t] == outs[t + 1]);
        }
        if k - 1 < outs.drop_first().len() {
            assert(outs.drop_first()[k - 1] == outs[k]);
        }
        lemma_first_bad_is(outs.drop_first(), k - 1);
    }
}

/// The count a lookup result holds for one Suffix: the last record carrying
/// that Suffix decides, and a Suffix no record carries counts 0.
pub open spec fn count_for(records: Seq<(Seq<char>, u64)>, suffix: Seq<char>) -> u64
    decreases records.len(),
{
    if records.len() == 0 {
        0
    } else if records.last().0 == suffix {
        records.last().1
    } else {
        count_for(records.drop_last(), suffix)
    }
}

/// A Suffix no record carries counts 0.
pub proof fn lemma_count_for_absent(records: Seq<(Seq<char>, u64)>, suffix: Seq<char>)
    requires
        forall|t: int| 0 <= t < records.len() ==> (#[trigger] records[t]).0 != suffix,
    ensures
        count_for(records, suffix) == 0,
    decreases records.len(),
{
    if records.len() > 0 {
        assert(records.last() == records[records.len() - 1]);
        lemma_count_for_absent(records.drop_last(), suffix);
    }
}

/// Looks one Suffix up in a parsed page.
fn count_for_exec(records: &Vec<(String, u64)>, suffix: &String) -> (c: u64)
    ensures
        c == count_for(records_view(records@), suffix@),
{
    let ghost rv = records_view(records@);
    let mut i = records.len();
    proof {
        assert(rv.take(rv.len() as int) =~= rv);
    }
    while i > 0
        invariant
            i <= records@.len(),
            rv == records_view(records@),
            count_for(rv, suffix@) == count_for(rv.take(i as int), suffix@),
        decreases i,
    {
        i = i - 1;
        proof {
            assert(rv.take(i + 1).last() == rv[i as int]);
            assert(rv.take(i + 1).drop_last() =~= rv.take(i as int));
            assert(rv[i as int].0 == records@[i as int].0@);
        }
        if records[i].0 == *suffix {
            return records[i].1;
        }
    }
    proof {
        assert(rv.take(0) =~= Seq::<(Seq<char>, u64)>::empty());
    }
    0
}

/// Everything the check promises, as one predicate over the secrets, the
/// lookup outcomes (one per Group, in Group order) and the result:
/// the check succeeds exactly when every outcome is a page that parses;
/// a success carries one count per secret, each Group slot's Identifier
/// holding the count its Digest's Suffix has in that Group's page; a failure
/// names the first bad Group's Prefix and whether its lookup failed outright
/// or answered malformed text.
pub open spec fn check_post(
    pw: Seq<Seq<char>>,
    outs: Seq<LookupOutcome>,
    r: Result<Vec<u64>, CheckError>,
) -> bool {
    let gs = partition_of(pw);
    &&& (r is Ok <==> all_ok(outs))
    &&& (r is Ok ==> {
        let out = r->Ok_0@;
        &&& out.len() == pw.len()
        &&& forall|k: int, w: int|
            0 <= k < gs.len() && 0 <= w < gs[k].len() ==> out[(#[trigger] gs[k][w]).1 as int]
                == count_for(outcome_records(outs[k]), suffix5(gs[k][w].0))
    })
    &&& (r is Err ==> {
        let k = first_bad(outs);
        &&& 0 <= k < outs.len()
        &&& !outcome_ok(outs[k])
        &&& (match outs[k] {
            LookupOutcome::TransportFailure => r->Err_0 matches CheckError::Transport { prefix }
                && prefix@ == prefix5(gs[k][0].0),
            LookupOutcome::Page(_) => r->Err_0 matches CheckError::Malformed { prefix } && prefix@
                == prefix5(gs[k][0].0),
        })
    })
}

/// The Groups of one run of the check: each secret's position, keyed by the
/// Digest Prefix it falls under. Holds what the partitioning step built,
/// together with the secrets it was built from.
pub struct Partition {
    groups: Vec<Vec<(String, usize)>>,
    count: usize,
    secrets: Ghost<Seq<Seq<char>>>,
}

impl Partition {
    #[verifier::type_invariant]
    spec fn wf(self) -> bool {
        &&& gview(self.groups@) == partition_of(self.secrets@)
        &&& self.count == self.secrets@.len()
        &&& forall|k: int|
            0 <= k < self.groups@.len() ==> all_len40(#[trigger] gview(self.groups@)[k])
        &&& all_len40(sorted_pairs(self.secrets@))
    }

    /// The secrets this Partition was built from.
    pub closed spec fn secrets(&self) -> Seq<Seq<char>> {
        self.secrets@
    }

    /// Partitions the secrets: hashes each one and groups the (Digest,
    /// Identifier) pairs by Prefix.
    pub fn new(passwords: &Vec<String>) -> (p: Partition)
        ensures
            p.secrets() == views_of(passwords@),
    {
        let groups = hashed_passwords(passwords);
        Partition { groups, count: passwords.len(), secrets: Ghost(views_of(passwords@)) }
    }

    /// How many secrets went in.
    pub fn num_secrets(&self) -> (n: usize)
        ensures
            n == self.secrets().len(),
    {
        proof {
            use_type_invariant(&*self);
        }
        self.count
    }

    /// How many Groups arose, hence how many lookups are owed: one per
    /// distinct Prefix, never more.
    pub fn num_groups(&self) -> (n: usize)
        ensures
            n == partition_of(self.secrets()).len(),
    {
        proof {
            use_type_invariant(&*self);
        }
        self.groups.len()
    }

    /// The Prefix of Group `k`: what the Lookup Client is to be asked for.
    pub fn prefix(&self, k: usize) -> (p: String)
        requires
            k < partition_of(self.secrets()).len(),
        ensures
            p@ == prefix5(partition_of(self.secrets())[k as int][0].0),
    {
        proof {
            use_type_invariant(&*self);
            lemma_partition_wf(self.secrets@);
            assert(gview(self.groups@).len() == self.groups@.len());
            assert(partition_of(self.secrets@)[k as int].len() > 0);
            assert(gview(self.groups@)[k as int] == pairs_view(self.groups@[k as int]@));
            assert(gview(self.groups@)[k as int][0] == pair_view(self.groups@[k as int]@[0]));
            assert(self.groups@[k as int]@[0].0@.len() == 40);
        }
        let g: &Vec<(String, usize)> = &self.groups[k];
        let s: &String = &g[0].0;
        s.as_str().substring_char(0, 5).to_owned()
    }

    /// Checks the secrets against the lookup outcomes, one per Group in
    /// Group order, and reassembles the occurrence counts in input order:
    /// position `i` of a success holds how often secret `i`'s Digest appears
    /// in the corpus, 0 when its Suffix is absent from its Group's page.
    /// Fail-fast: the first Group whose lookup failed or whose page is
    /// malformed decides the error, and no partial result is returned.
    #[verifier::loop_isolation(false)]
    #[verifier::rlimit(100)]
    pub fn check_passwords(&self, outcomes: &Vec<LookupOutcome>) -> (r: Result<
        Vec<u64>,
        CheckError,
    >)
        requires
            outcomes@.len() == partition_of(self.secrets()).len(),
        ensures
            check_post(self.secrets(), outcomes@, r),
    {
        proof {
            use_type_invariant(&*self);
            lemma_partition_slots(self.secrets@);
            lemma_partition_wf(self.secrets@);
            assert(gview(self.groups@).len() == self.groups@.len());
        }
        let ghost pw = self.secrets@;
        let ghost gs = partition_of(pw);
        let n = self.count;
        let mut counts: Vec<u64> = Vec::new();
        while counts.len() < n
            invariant
                counts@.len() <= n,
            decreases n - counts@.len(),
        {
            counts.push(0);
        }
        let ngroups = self.groups.len();
        let mut k: usize = 0;
        while k < ngroups
            invariant
                k <= ngroups,
                counts@.len() == n,
                forall|t: int| 0 <= t < k ==> outcome_ok(#[trigger] outcomes@[t]),
                forall|k2: int, w: int|
                    0 <= k2 < k && 0 <= w < gs[k2].len() ==> counts@[(#[trigger] gs[k2][w]).1
                        as int] == count_for(
                        outcome_records(outcomes@[k2]),
                        suffix5(gs[k2][w].0),
                    ),
            decreases ngroups - k,
        {
            match &outcomes[k] {
                LookupOutcome::TransportFailure => {
                    let p = self.prefix(k);
                    proof {
                        lemma_first_bad_is(outcomes@, k as int);
                    }
                    return Err(CheckError::Transport { prefix: p });
                },
                LookupOutcome::Page(text) => {
                    match pwned_suffixes(text.as_str()) {
                        None => {
                            let p = self.prefix(k);
                            proof {
                                lemma_first_bad_is(outcomes@, k as int);
                            }
                            return Err(CheckError::Malformed { prefix: p });
                        },
                        Some(records) => {
                            proof {
                                assert(records_view(records@) == outcome_records(
                                    outcomes@[k as int],
                                ));
                                assert(gview(self.groups@)[k as int] == pairs_view(
                                    self.groups@[k as int]@,
                                ));
                            }
                            let g: &Vec<(String, usize)> = &self.groups[k];
                            let gsize = g.len();
                            let mut w: usize = 0;
                            while w < gsize
                                invariant
                                    w <= gsize,
                                    counts@.len() == n,
                                    gsize == gs[k as int].len(),
                                    pairs_view(g@) == gs[k as int],
                                    records_view(records@) == outcome_records(
                                        outcomes@[k as int],
                                    ),
                                    forall|k2: int, w2: int|
                                        0 <= k2 < k && 0 <= w2 < gs[k2].len() ==> counts@[(
                                        #[trigger] gs[k2][w2]).1 as int] == count_for(
                                            outcome_records(outcomes@[k2]),
                                            suffix5(gs[k2][w2].0),
                                        ),
                                    forall|w2: int|
                                        0 <= w2 < w ==> counts@[(#[trigger] gs[k as int][w2]).1
                                            as int] == count_for(
                                            outcome_records(outcomes@[k as int]),
                                            suffix5(gs[k as int][w2].0),
                                        ),
                                decreases gsize - w,
                            {
                                proof {
                                    assert(pair_view(g@[w as int]) == gs[k as int][w as int]);
                                    assert(gs[k as int][w as int].1 < pw.len());
                                    assert(g@[w as int].0@.len() == 40);
                                }
                                let id = g[w].1;
                                let suffix = g[w].0.as_str().substring_char(5, 40).to_owned();
                                proof {
                                    assert(suffix@ =~= suffix5(gs[k as int][w as int].0));
                                }
                                let c = count_for_exec(&records, &suffix);
                                counts[id] = c;
                                w = w + 1;
                            }
                        },
                    }
                },
            }
            k = k + 1;
        }
        proof {
            assert(all_ok(outcomes@));
        }
        Ok(counts)
    }

    /// How many secrets Group `k` holds: what the Progress Sink is told when
    /// the Group's lookup completes.
    pub fn group_size(&self, k: usize) -> (m: usize)
        requires
            k < partition_of(self.secrets()).len(),
        ensures
            m == partition_of(self.secrets())[k as int].len(),
    {
        proof {
            use_type_invariant(&*self);
            assert(gview(self.groups@).len() == self.groups@.len());
            assert(gview(self.groups@)[k as int] == pairs_view(self.groups@[k as int]@));
        }
        self.groups[k].len()
    }
}

} // verus!
