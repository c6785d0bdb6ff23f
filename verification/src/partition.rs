use vstd::prelude::*;
use vstd::string::*;
use vstd::relations::{sorted_by, total_ordering};
use crate::digest::{digest, digest_of};
use crate::order::{
    lex_leq, lex_lt, lemma_lex_leq_take, lemma_lex_lt_asymmetric, lemma_lex_lt_connected,
    lemma_lex_lt_transitive, str_lex_lt,
};

verus! {

/// The character sequences of a sequence of owned strings.
pub open spec fn views_of(pw: Seq<String>) -> Seq<Seq<char>> {
    pw.map_values(|p: String| p@)
}

/// The mathematical value of one (Digest, Identifier) pair.
pub open spec fn pair_view(p: (String, usize)) -> (Seq<char>, usize) {
    (p.0@, p.1)
}

/// The mathematical value of a sequence of (Digest, Identifier) pairs.
pub open spec fn pairs_view(s: Seq<(String, usize)>) -> Seq<(Seq<char>, usize)> {
    s.map_values(|p: (String, usize)| pair_view(p))
}

/// The pairs the pipeline is built from: each secret's Digest together with
/// its position in the input.
pub open spec fn spec_pairs(pw: Seq<Seq<char>>) -> Seq<(Seq<char>, usize)> {
    Seq::new(pw.len(), |i: int| (digest_of(pw[i]), i as usize))
}

/// Strict order on pairs: by Digest, ties broken by Identifier. Since no two
/// pairs of one input share an Identifier, this order has no ties at all.
pub open spec fn pair_lt(x: (Seq<char>, usize), y: (Seq<char>, usize)) -> bool {
    lex_lt(x.0, y.0) || (x.0 == y.0 && x.1 < y.1)
}

/// Reflexive closure of `pair_lt`, packaged for vstd's ordering lemmas.
pub open spec fn pair_order() -> spec_fn((Seq<char>, usize), (Seq<char>, usize)) -> bool {
    |x: (Seq<char>, usize), y: (Seq<char>, usize)| pair_lt(x, y) || x == y
}

/// `pair_order()` is a total order.
pub proof fn lemma_pair_order_total()
    ensures
        total_ordering(pair_order()),
{
    let leq = pair_order();
    assert forall|x: (Seq<char>, usize), y: (Seq<char>, usize)| #[trigger] leq(x, y) && leq(
        y,
        x,
    ) implies x == y by {
        lemma_lex_lt_asymmetric(x.0, y.0);
    }
    assert forall|x: (Seq<char>, usize), y: (Seq<char>, usize), z: (Seq<char>, usize)|
        #[trigger] leq(x, y) && #[trigger] leq(y, z) implies leq(x, z) by {
        lemma_lex_lt_transitive(x.0, y.0, z.0);
        lemma_lex_lt_asymmetric(x.0, y.0);
        lemma_lex_lt_asymmetric(y.0, z.0);
    }
    assert forall|x: (Seq<char>, usize), y: (Seq<char>, usize)| !(#[trigger] leq(x, y)) implies leq(
        y,
        x,
    ) by {
        lemma_lex_lt_connected(x.0, y.0);
    }
}

/// The pairs of the input, sorted. Identifiers are distinct, so exactly one
/// sorted arrangement exists; this is the order the Groups are read off in.
pub open spec fn sorted_pairs(pw: Seq<Seq<char>>) -> Seq<(Seq<char>, usize)> {
    spec_pairs(pw).sort_by(pair_order())
}

/// The Prefix of a Digest: its first 5 characters.
pub open spec fn prefix5(d: Seq<char>) -> Seq<char> {
    d.take(5)
}

/// The Suffix of a Digest: everything after the Prefix.
pub open spec fn suffix5(d: Seq<char>) -> Seq<char> {
    d.skip(5)
}

/// How many leading pairs of `f` carry the Prefix `p`.
pub open spec fn run_len(f: Seq<(Seq<char>, usize)>, p: Seq<char>) -> nat
    decreases f.len(),
{
    if f.len() == 0 || prefix5(f[0].0) != p {
        0
    } else {
        1 + run_len(f.drop_first(), p)
    }
}

/// Splits a sequence of pairs into its maximal runs of equal Prefix.
pub open spec fn spec_groups(f: Seq<(Seq<char>, usize)>) -> Seq<Seq<(Seq<char>, usize)>>
    decreases f.len(),
    via spec_groups_decreases
{
    if f.len() == 0 {
        seq![]
    } else {
        let r = run_len(f, prefix5(f[0].0)) as int;
        seq![f.take(r)] + spec_groups(f.skip(r))
    }
}

#[via_fn]
proof fn spec_groups_decreases(f: Seq<(Seq<char>, usize)>) {
    if f.len() > 0 {
        lemma_run_len_bound(f, prefix5(f[0].0));
        assert(run_len(f, prefix5(f[0].0)) >= 1);
    }
}

/// A run never reaches past the end of the sequence.
pub proof fn lemma_run_len_bound(f: Seq<(Seq<char>, usize)>, p: Seq<char>)
    ensures
        run_len(f, p) <= f.len(),
    decreases f.len(),
{
    if f.len() > 0 && prefix5(f[0].0) == p {
        lemma_run_len_bound(f.drop_first(), p);
    }
}

/// The Groups of an input: its pairs, sorted, split into maximal runs of
/// equal Prefix. This is the whole partitioning step as one function.
pub open spec fn partition_of(pw: Seq<Seq<char>>) -> Seq<Seq<(Seq<char>, usize)>> {
    spec_groups(sorted_pairs(pw))
}

/// Every Digest in `s` is 40 characters long.
pub open spec fn all_len40(s: Seq<(Seq<char>, usize)>) -> bool {
    forall|t: int| 0 <= t < s.len() ==> (#[trigger] s[t]).0.len() == 40
}

/// Computes the (Digest, Identifier) pair of every secret, in input order.
fn make_pairs(passwords: &Vec<String>) -> (pairs: Vec<(String, usize)>)
    ensures
        pairs_view(pairs@) == spec_pairs(views_of(passwords@)),
        all_len40(pairs_view(pairs@)),
{
    let ghost pw = views_of(passwords@);
    let mut pairs: Vec<(String, usize)> = Vec::new();
    let mut i: usize = 0;
    while i < passwords.len()
        invariant
            i <= passwords@.len(),
            pairs@.len() == i,
            pw == views_of(passwords@),
            pairs_view(pairs@) =~= spec_pairs(pw).take(i as int),
            all_len40(pairs_view(pairs@)),
        decreases passwords@.len() - i,
    {
        let d = digest(passwords[i].as_str());
        let ghost prev = pairs@;
        pairs.push((d, i));
        proof {
            assert forall|t: int| 0 <= t < pairs@.len() implies pairs_view(pairs@)[t]
                == spec_pairs(pw).take(i + 1)[t] by {
                if t < i {
                    assert(pairs@[t] == prev[t]);
                    assert(pairs_view(prev)[t] == spec_pairs(pw).take(i as int)[t]);
                } else {
                    assert(pairs@[t] == (d, i));
                    assert(pw[t] == passwords@[t]@);
                }
            }
            assert(pairs_view(pairs@) =~= spec_pairs(pw).take(i + 1));
            assert forall|t: int| 0 <= t < pairs@.len() implies (#[trigger] pairs_view(
                pairs@,
            )[t]).0.len() == 40 by {
                if t < i {
                    assert(pairs_view(prev)[t].0.len() == 40);
                }
            }
        }
        i = i + 1;
    }
    proof {
        assert(spec_pairs(pw).take(pw.len() as int) =~= spec_pairs(pw));
    }
    pairs
}

/// Removing an element commutes with taking pair views.
proof fn lemma_pairs_view_remove(s: Seq<(String, usize)>, i: int)
    requires
        0 <= i < s.len(),
    ensures
        pairs_view(s.remove(i)) =~= pairs_view(s).remove(i),
{
}

/// Appending an element commutes with taking pair views.
proof fn lemma_pairs_view_push(s: Seq<(String, usize)>, x: (String, usize))
    ensures
        pairs_view(s.push(x)) =~= pairs_view(s).push(pair_view(x)),
{
}

/// Sorts the pairs by `pair_order()`: same pairs, ascending Digests.
#[verifier::loop_isolation(false)]
fn sort_pairs(pairs: Vec<(String, usize)>) -> (out: Vec<(String, usize)>)
    ensures
        pairs_view(out@).to_multiset() == pairs_view(pairs@).to_multiset(),
        sorted_by(pairs_view(out@), pair_order()),
        all_len40(pairs_view(pairs@)) ==> all_len40(pairs_view(out@)),
{
    broadcast use vstd::seq_lib::group_to_multiset_ensures;
    broadcast use vstd::multiset::group_multiset_axioms;

    let ghost input = pairs_view(pairs@);
    let mut rest = pairs;
    let mut out: Vec<(String, usize)> = Vec::new();
    proof {
        assert(pairs_view(out@) =~= Seq::<(Seq<char>, usize)>::empty());
        assert(pairs_view(out@).to_multiset().add(pairs_view(rest@).to_multiset())
            =~= input.to_multiset());
    }
    while rest.len() > 0
        invariant
            pairs_view(out@).to_multiset().add(pairs_view(rest@).to_multiset())
                == input.to_multiset(),
            sorted_by(pairs_view(out@), pair_order()),
            forall|a: int, b: int|
                0 <= a < out@.len() && 0 <= b < rest@.len() ==> pair_order()(
                    #[trigger] pairs_view(out@)[a],
                    #[trigger] pairs_view(rest@)[b],
                ),
            all_len40(input) ==> all_len40(pairs_view(out@)) && all_len40(pairs_view(rest@)),
        decreases rest@.len(),
    {
        let ghost rv = pairs_view(rest@);
        let mut m: usize = 0;
        let mut j: usize = 1;
        while j < rest.len()
            invariant
                rest@.len() > 0,
                m < j,
                j <= rest@.len(),
                rv == pairs_view(rest@),
                forall|t: int| 0 <= t < j ==> pair_order()(rv[m as int], #[trigger] rv[t]),
            decreases rest@.len() - j,
        {
            if !pair_le(&rest[m], &rest[j]) {
                proof {
                    lemma_lex_lt_connected(rv[m as int].0, rv[j as int].0);
                    assert(pair_order()(rv[j as int], rv[m as int]));
                    assert forall|t: int| 0 <= t < j + 1 implies pair_order()(
                        rv[j as int],
                        #[trigger] rv[t],
                    ) by {
                        if t < j {
                            lemma_lex_lt_transitive(rv[j as int].0, rv[m as int].0, rv[t].0);
                            lemma_lex_lt_asymmetric(rv[j as int].0, rv[m as int].0);
                        }
                    }
                }
                m = j;
            }
            j = j + 1;
        }
        let ghost old_rest = rest@;
        let ghost old_out_v = out@;
        let ghost old_out = pairs_view(out@);
        let x = rest.remove(m);
        out.push(x);
        proof {
            let xv = pair_view(x);
            assert(xv == rv[m as int]);
            lemma_pairs_view_remove(old_rest, m as int);
            assert(pairs_view(rest@) == rv.remove(m as int));
            lemma_pairs_view_push(old_out_v, x);
            assert(pairs_view(out@) == old_out.push(xv));
            assert(rv.contains(xv)) by {
                assert(rv[m as int] == xv);
            }
            assert(rv.to_multiset().count(xv) > 0);
            assert(pairs_view(out@).to_multiset() == old_out.to_multiset().insert(xv));
            assert(pairs_view(rest@).to_multiset() == rv.to_multiset().remove(xv));
            assert(pairs_view(out@).to_multiset().add(pairs_view(rest@).to_multiset())
                =~= input.to_multiset());
            assert forall|a: int, b: int|
                0 <= a < out@.len() && 0 <= b < rest@.len() implies pair_order()(
                #[trigger] pairs_view(out@)[a],
                #[trigger] pairs_view(rest@)[b],
            ) by {
                let ov = pairs_view(out@);
                let nv = pairs_view(rest@);
                assert(nv[b] == if b < m { rv[b] } else { rv[b + 1] });
                if a < ov.len() - 1 {
                    assert(old_out[a] == ov[a]);
                } else {
                    assert(ov[a] == xv);
                }
            }
            if all_len40(input) {
                assert forall|t: int| 0 <= t < pairs_view(out@).len() implies (
                #[trigger] pairs_view(out@)[t]).0.len() == 40 by {
                    if t < old_out.len() {
                        assert(old_out[t].0.len() == 40);
                    } else {
                        assert(rv[m as int].0.len() == 40);
                    }
                }
                assert forall|t: int| 0 <= t < pairs_view(rest@).len() implies (
                #[trigger] pairs_view(rest@)[t]).0.len() == 40 by {
                    let b = if t < m { t } else { t + 1 };
                    assert(rv[b].0.len() == 40);
                }
            }
        }
    }
    proof {
        assert(pairs_view(rest@) =~= Seq::<(Seq<char>, usize)>::empty());
        assert(pairs_view(out@).to_multiset() =~= input.to_multiset());
    }
    out
}

/// Decides `pair_order()` on two pairs.
fn pair_le(a: &(String, usize), b: &(String, usize)) -> (r: bool)
    ensures
        r == pair_order()(pair_view(*a), pair_view(*b)),
{
    if str_lex_lt(a.0.as_str(), b.0.as_str()) {
        true
    } else if a.0 == b.0 {
        a.1 <= b.1
    } else {
        false
    }
}

/// The mathematical value of a sequence of Groups.
pub open spec fn gview(gs: Seq<Vec<(String, usize)>>) -> Seq<Seq<(Seq<char>, usize)>> {
    gs.map_values(|g: Vec<(String, usize)>| pairs_view(g@))
}

/// A run is exactly as long as its matching stretch.
proof fn lemma_run_len_is(f: Seq<(Seq<char>, usize)>, p: Seq<char>, k: int)
    requires
        0 <= k <= f.len(),
        forall|t: int| 0 <= t < k ==> prefix5((#[trigger] f[t]).0) == p,
        k == f.len() || prefix5(f[k].0) != p,
    ensures
        run_len(f, p) == k,
    decreases f.len(),
{
    if f.len() > 0 && prefix5(f[0].0) == p {
        assert(k >= 1);
        assert forall|t: int| 0 <= t < k - 1 implies prefix5(
            (#[trigger] f.drop_first()[t]).0,
        ) == p by {
            assert(f.drop_first()[t] == f[t + 1]);
        }
        if k - 1 < f.drop_first().len() {
            assert(f.drop_first()[k - 1] == f[k]);
        }
        lemma_run_len_is(f.drop_first(), p, k - 1);
    }
}

/// Decides whether two Digests share their Prefix.
fn prefix_eq(a: &str, b: &str) -> (r: bool)
    requires
        a@.len() >= 5,
        b@.len() >= 5,
    ensures
        r == (prefix5(a@) == prefix5(b@)),
{
    let mut i: usize = 0;
    while i < 5
        invariant
            i <= 5,
            a@.len() >= 5,
            b@.len() >= 5,
            forall|t: int| 0 <= t < i ==> a@[t] == b@[t],
        decreases 5 - i,
    {
        let ca = a.get_char(i);
        let cb = b.get_char(i);
        if ca != cb {
            proof {
                assert(prefix5(a@)[i as int] != prefix5(b@)[i as int]);
            }
            return false;
        }
        i = i + 1;
    }
    proof {
        assert(prefix5(a@) =~= prefix5(b@));
    }
    true
}

/// Finds where the run of `sorted[t]`'s Prefix ends.
fn run_end(sorted: &Vec<(String, usize)>, t: usize) -> (j: usize)
    requires
        t < sorted@.len(),
        all_len40(pairs_view(sorted@)),
    ensures
        t < j <= sorted@.len(),
        forall|u: int|
            t <= u < j ==> prefix5((#[trigger] pairs_view(sorted@)[u]).0) == prefix5(
                pairs_view(sorted@)[t as int].0,
            ),
        j == sorted@.len() || prefix5(pairs_view(sorted@)[j as int].0) != prefix5(
            pairs_view(sorted@)[t as int].0,
        ),
{
    let ghost f = pairs_view(sorted@);
    let n = sorted.len();
    let mut j: usize = t + 1;
    while j < n
        invariant
            t < j <= f.len(),
            n == f.len(),
            f == pairs_view(sorted@),
            all_len40(f),
            forall|u: int| t <= u < j ==> prefix5((#[trigger] f[u]).0) == prefix5(f[t as int].0),
        decreases f.len() - j,
    {
        proof {
            assert(f[t as int].0 == sorted@[t as int].0@);
            assert(f[j as int].0 == sorted@[j as int].0@);
        }
        if !prefix_eq(sorted[t].0.as_str(), sorted[j].0.as_str()) {
            return j;
        }
        j = j + 1;
    }
    j
}

/// Splits the sorted pairs into maximal Groups of equal Prefix.
#[verifier::loop_isolation(false)]
fn group_pairs(sorted: Vec<(String, usize)>) -> (groups: Vec<Vec<(String, usize)>>)
    requires
        all_len40(pairs_view(sorted@)),
    ensures
        gview(groups@) == spec_groups(pairs_view(sorted@)),
        forall|k: int| 0 <= k < groups@.len() ==> all_len40(#[trigger] gview(groups@)[k]),
{
    let ghost f = pairs_view(sorted@);
    let mut groups: Vec<Vec<(String, usize)>> = Vec::new();
    let mut t: usize = 0;
    proof {
        assert(f.skip(0) =~= f);
        assert(gview(groups@) =~= Seq::<Seq<(Seq<char>, usize)>>::empty());
        assert(gview(groups@) + spec_groups(f) =~= spec_groups(f));
    }
    while t < sorted.len()
        invariant
            t <= f.len(),
            f == pairs_view(sorted@),
            all_len40(f),
            spec_groups(f) == gview(groups@) + spec_groups(f.skip(t as int)),
            forall|k: int| 0 <= k < groups@.len() ==> all_len40(#[trigger] gview(groups@)[k]),
        decreases f.len() - t,
    {
        let j = run_end(&sorted, t);
        let mut g: Vec<(String, usize)> = Vec::new();
        let mut u: usize = t;
        proof {
            assert(pairs_view(g@) =~= f.subrange(t as int, t as int));
        }
        while u < j
            invariant
                t <= u <= j <= f.len(),
                f == pairs_view(sorted@),
                pairs_view(g@) == f.subrange(t as int, u as int),
            decreases j - u,
        {
            let ghost old_g = g@;
            g.push((sorted[u].0.clone(), sorted[u].1));
            proof {
                lemma_pairs_view_push(old_g, (sorted@[u as int].0, sorted@[u as int].1));
                assert(pair_view(sorted@[u as int]) == f[u as int]);
                assert(pairs_view(g@) =~= f.subrange(t as int, u + 1));
            }
            u = u + 1;
        }
        let ghost old_groups = groups@;
        groups.push(g);
        proof {
            let ft = f.skip(t as int);
            let p = prefix5(ft[0].0);
            assert(ft[0] == f[t as int]);
            assert forall|w: int| 0 <= w < j - t implies prefix5((#[trigger] ft[w]).0) == p by {
                assert(ft[w] == f[t + w]);
            }
            if j < f.len() {
                assert(ft[j - t] == f[j as int]);
            }
            lemma_run_len_is(ft, p, j - t);
            assert(ft.take(j - t) =~= f.subrange(t as int, j as int));
            assert(ft.skip(j - t) =~= f.skip(j as int));
            assert(spec_groups(ft) == seq![f.subrange(t as int, j as int)] + spec_groups(
                f.skip(j as int),
            ));
            assert(gview(groups@) =~= gview(old_groups).push(f.subrange(t as int, j as int)));
            assert(gview(groups@) + spec_groups(f.skip(j as int)) =~= gview(old_groups) + (seq![
                f.subrange(t as int, j as int),
            ] + spec_groups(f.skip(j as int))));
            assert forall|k: int| 0 <= k < groups@.len() implies all_len40(
                #[trigger] gview(groups@)[k],
            ) by {
                if k < old_groups.len() {
                    assert(gview(old_groups)[k] == gview(groups@)[k]);
                    assert(all_len40(gview(old_groups)[k]));
                } else {
                    assert(gview(groups@)[k] == f.subrange(t as int, j as int));
                    assert forall|w: int|
                        0 <= w < j - t implies (#[trigger] f.subrange(t as int, j as int)[w])
                        .0.len() == 40 by {
                        assert(f.subrange(t as int, j as int)[w] == f[t + w]);
                    }
                }
            }
        }
        t = j;
    }
    proof {
        assert(f.skip(f.len() as int) =~= Seq::<(Seq<char>, usize)>::empty());
        assert(gview(groups@) + spec_groups(f.skip(f.len() as int)) =~= gview(groups@));
    }
    groups
}

/// The run of Prefix `p` consists exactly of the leading pairs carrying `p`.
proof fn lemma_run_len_covers(f: Seq<(Seq<char>, usize)>, p: Seq<char>)
    ensures
        run_len(f, p) <= f.len(),
        forall|t: int| 0 <= t < run_len(f, p) ==> prefix5((#[trigger] f[t]).0) == p,
        run_len(f, p) == f.len() || prefix5(f[run_len(f, p) as int].0) != p,
    decreases f.len(),
{
    if f.len() > 0 && prefix5(f[0].0) == p {
        lemma_run_len_covers(f.drop_first(), p);
        let r = run_len(f, p) as int;
        assert forall|t: int| 0 <= t < r implies prefix5((#[trigger] f[t]).0) == p by {
            if t > 0 {
                assert(f.drop_first()[t - 1] == f[t]);
            }
        }
        if r < f.len() {
            assert(f.drop_first()[r - 1] == f[r]);
        }
    }
}

/// Regrouping loses no pair and invents none: the Groups flatten back to the
/// very sequence they were read from.
pub proof fn lemma_spec_groups_flatten(f: Seq<(Seq<char>, usize)>)
    ensures
        spec_groups(f).flatten() == f,
    decreases f.len(),
{
    if f.len() == 0 {
        assert(spec_groups(f).flatten() =~= f);
    } else {
        let p = prefix5(f[0].0);
        lemma_run_len_bound(f, p);
        assert(run_len(f, p) >= 1);
        let r = run_len(f, p) as int;
        lemma_spec_groups_flatten(f.skip(r));
        let gs = spec_groups(f);
        assert(gs == seq![f.take(r)] + spec_groups(f.skip(r)));
        assert(gs.first() == f.take(r));
        assert(gs.drop_first() =~= spec_groups(f.skip(r)));
        assert(gs.flatten() == f.take(r) + f.skip(r));
        assert(f.take(r) + f.skip(r) =~= f);
    }
}

/// What the partitioning step promises of its Groups: none is empty, each is
/// a set of pairs sharing one Prefix, and the Prefixes of distinct Groups are
/// distinct (in fact strictly ascending).
pub open spec fn groups_well_formed(gs: Seq<Seq<(Seq<char>, usize)>>) -> bool {
    &&& forall|k: int| 0 <= k < gs.len() ==> (#[trigger] gs[k]).len() > 0
    &&& forall|k: int, w: int|
        0 <= k < gs.len() && 0 <= w < gs[k].len() ==> prefix5((#[trigger] gs[k][w]).0) == prefix5(
            gs[k][0].0,
        )
    &&& forall|k1: int, k2: int|
        0 <= k1 < k2 < gs.len() ==> lex_lt(
            prefix5((#[trigger] gs[k1])[0].0),
            prefix5((#[trigger] gs[k2])[0].0),
        )
}

/// Splitting a sorted sequence of pairs at Prefix changes yields well-formed
/// Groups.
pub proof fn lemma_spec_groups_wf(f: Seq<(Seq<char>, usize)>)
    requires
        sorted_by(f, pair_order()),
        forall|t: int| 0 <= t < f.len() ==> (#[trigger] f[t]).0.len() >= 5,
    ensures
        groups_well_formed(spec_groups(f)),
        f.len() > 0 ==> forall|k: int|
            0 <= k < spec_groups(f).len() ==> lex_leq(
                prefix5(f[0].0),
                prefix5((#[trigger] spec_groups(f)[k])[0].0),
            ),
    decreases f.len(),
{
    if f.len() > 0 {
        let p = prefix5(f[0].0);
        lemma_run_len_covers(f, p);
        assert(run_len(f, p) >= 1);
        let r = run_len(f, p) as int;
        let rest = f.skip(r);
        assert forall|i: int, j: int| 0 <= i < j < rest.len() implies #[trigger] pair_order()(
            rest[i],
            rest[j],
        ) by {
            assert(rest[i] == f[r + i]);
            assert(rest[j] == f[r + j]);
            assert(pair_order()(f[r + i], f[r + j]));
        }
        assert forall|t: int| 0 <= t < rest.len() implies (#[trigger] rest[t]).0.len() >= 5 by {
            assert(rest[t] == f[r + t]);
        }
        lemma_spec_groups_wf(rest);
        let gs = spec_groups(f);
        let gs_rest = spec_groups(rest);
        assert(gs == seq![f.take(r)] + gs_rest);
        assert(gs[0] == f.take(r));
        assert forall|k: int| 1 <= k < gs.len() implies gs[k] == gs_rest[k - 1] by {}
        // The head Group carries Prefix p throughout.
        assert forall|w: int| 0 <= w < gs[0].len() implies prefix5(
            (#[trigger] gs[0][w]).0,
        ) == prefix5(gs[0][0].0) by {
            assert(f.take(r)[w] == f[w]);
            assert(f.take(r)[0] == f[0]);
        }
        if r < f.len() {
            // Every later Group's Prefix lies strictly above p.
            assert(rest[0] == f[r]);
            assert(pair_order()(f[0], f[r]));
            assert(lex_leq(f[0].0, f[r].0));
            lemma_lex_leq_take(f[0].0, f[r].0, 5);
            assert(lex_leq(p, prefix5(f[r].0)));
            assert(prefix5(f[r].0) != p);
            assert(lex_lt(p, prefix5(rest[0].0)));
            assert forall|k: int| 1 <= k < gs.len() implies lex_lt(
                p,
                prefix5((#[trigger] gs[k])[0].0),
            ) by {
                assert(gs[k] == gs_rest[k - 1]);
                assert(lex_leq(prefix5(rest[0].0), prefix5(gs_rest[k - 1][0].0)));
                lemma_lex_lt_transitive(p, prefix5(rest[0].0), prefix5(gs_rest[k - 1][0].0));
            }
        }
        assert forall|k1: int, k2: int| 0 <= k1 < k2 < gs.len() implies lex_lt(
            prefix5((#[trigger] gs[k1])[0].0),
            prefix5((#[trigger] gs[k2])[0].0),
        ) by {
            if k1 > 0 {
                assert(gs[k1] == gs_rest[k1 - 1]);
                assert(gs[k2] == gs_rest[k2 - 1]);
            }
        }
        assert forall|k: int| 0 <= k < gs.len() implies lex_leq(
            prefix5(f[0].0),
            prefix5((#[trigger] gs[k])[0].0),
        ) by {
            if k == 0 {
                assert(gs[0][0] == f[0]);
            }
        }
    }
}

/// Identifier `i` appears in `flat`, paired with the Digest of secret `i`.
pub open spec fn appears(flat: Seq<(Seq<char>, usize)>, pw: Seq<Seq<char>>, i: int) -> bool {
    exists|t: int| 0 <= t < flat.len() && #[trigger] flat[t] == (digest_of(pw[i]), i as usize)
}

/// The partition invariant: across all Groups, every Identifier `0 <= i < n`
/// appears exactly once, paired with the Digest of secret `i`.
#[verifier::rlimit(50)]
pub proof fn lemma_partition_coverage(pw: Seq<Seq<char>>)
    requires
        pw.len() <= usize::MAX,
    ensures
        partition_of(pw).flatten().to_multiset() == spec_pairs(pw).to_multiset(),
        partition_of(pw).flatten().len() == pw.len(),
        forall|t: int|
            0 <= t < partition_of(pw).flatten().len() ==> {
                let x = #[trigger] partition_of(pw).flatten()[t];
                0 <= x.1 < pw.len() && x.0 == digest_of(pw[x.1 as int])
            },
        forall|i: int|
            0 <= i < pw.len() ==> #[trigger] appears(partition_of(pw).flatten(), pw, i),
        forall|t1: int, t2: int|
            0 <= t1 < t2 < partition_of(pw).flatten().len() ==> (#[trigger] partition_of(
                pw,
            ).flatten()[t1]).1 != (#[trigger] partition_of(pw).flatten()[t2]).1,
{
    broadcast use vstd::seq_lib::group_to_multiset_ensures;
    broadcast use vstd::multiset::group_multiset_axioms;

    let sp = spec_pairs(pw);
    let f = sorted_pairs(pw);
    let flat = partition_of(pw).flatten();
    lemma_pair_order_total();
    sp.lemma_sort_by_ensures(pair_order());
    lemma_spec_groups_flatten(f);
    assert(flat == f);
    assert(flat.to_multiset() == sp.to_multiset());
    assert(flat.len() == flat.to_multiset().len());
    assert(sp.len() == sp.to_multiset().len());
    assert(flat.len() == sp.len());
    assert(sp.len() == pw.len());
    assert forall|t: int| 0 <= t < flat.len() implies {
        let x = #[trigger] flat[t];
        0 <= x.1 < pw.len() && x.0 == digest_of(pw[x.1 as int])
    } by {
        assert(flat.contains(flat[t]));
        assert(flat.to_multiset().count(flat[t]) > 0);
        assert(sp.to_multiset().count(flat[t]) > 0);
        assert(sp.contains(flat[t]));
        let j = choose|j: int| 0 <= j < sp.len() && sp[j] == flat[t];
        assert(sp[j] == (digest_of(pw[j]), j as usize));
    }
    assert forall|i: int| 0 <= i < pw.len() implies #[trigger] appears(flat, pw, i) by {
        assert(sp[i] == (digest_of(pw[i]), i as usize));
        assert(sp.contains(sp[i]));
        assert(sp.to_multiset().count(sp[i]) > 0);
        assert(flat.to_multiset().count(sp[i]) > 0);
        assert(flat.contains(sp[i]));
        let t = choose|t: int| 0 <= t < flat.len() && flat[t] == sp[i];
        assert(flat[t] == (digest_of(pw[i]), i as usize));
    }
    assert(sp.no_duplicates()) by {
        assert forall|i: int, j: int|
            0 <= i < sp.len() && 0 <= j < sp.len() && i != j implies sp[i] != sp[j] by {
            assert(sp[i].1 == i as usize);
            assert(sp[j].1 == j as usize);
        }
    }
    sp.lemma_multiset_has_no_duplicates();
    flat.lemma_multiset_has_no_duplicates_conv();
    assert forall|t1: int, t2: int| 0 <= t1 < t2 < flat.len() implies (#[trigger] flat[t1]).1 != (
    #[trigger] flat[t2]).1 by {
        if flat[t1].1 == flat[t2].1 {
            let x1 = flat[t1];
            let x2 = flat[t2];
            assert(x1.0 == digest_of(pw[x1.1 as int]));
            assert(x2.0 == digest_of(pw[x2.1 as int]));
            assert(x1 == x2);
        }
    }
}

/// Every element of a Group stands somewhere in the flattened sequence.
proof fn lemma_group_elem_pos(gs: Seq<Seq<(Seq<char>, usize)>>, k: int, w: int)
    requires
        0 <= k < gs.len(),
        0 <= w < gs[k].len(),
    ensures
        exists|t: int| 0 <= t < gs.flatten().len() && #[trigger] gs.flatten()[t] == gs[k][w],
    decreases k,
{
    let flat = gs.flatten();
    assert(flat == gs[0] + gs.drop_first().flatten());
    if k == 0 {
        assert(flat[w] == gs[0][w]);
    } else {
        lemma_group_elem_pos(gs.drop_first(), k - 1, w);
        let t = choose|t: int|
            0 <= t < gs.drop_first().flatten().len() && #[trigger] gs.drop_first().flatten()[t]
                == gs.drop_first()[k - 1][w];
        assert(flat[gs[0].len() + t] == gs.drop_first().flatten()[t]);
        assert(gs.drop_first()[k - 1] == gs[k]);
    }
}

/// Every position of the flattened sequence lies in some Group.
proof fn lemma_flat_pos_in_groups(gs: Seq<Seq<(Seq<char>, usize)>>, t: int)
    requires
        0 <= t < gs.flatten().len(),
    ensures
        exists|k: int, w: int|
            0 <= k < gs.len() && 0 <= w < gs[k].len() && #[trigger] gs[k][w] == gs.flatten()[t],
    decreases gs.len(),
{
    assert(gs.len() > 0);
    let flat = gs.flatten();
    assert(flat == gs[0] + gs.drop_first().flatten());
    if t < gs[0].len() {
        assert(gs[0][t] == flat[t]);
    } else {
        lemma_flat_pos_in_groups(gs.drop_first(), t - gs[0].len());
        let (k, w) = choose|k: int, w: int|
            0 <= k < gs.drop_first().len() && 0 <= w < gs.drop_first()[k].len()
                && #[trigger] gs.drop_first()[k][w] == gs.drop_first().flatten()[t - gs[0].len()];
        assert(gs.drop_first()[k] == gs[k + 1]);
        assert(flat[t] == gs.drop_first().flatten()[t - gs[0].len()]);
        assert(gs[k + 1][w] == flat[t]);
    }
}

/// When the flattened sequence has no duplicates, no two Group slots hold
/// the same pair.
proof fn lemma_groups_no_dup(gs: Seq<Seq<(Seq<char>, usize)>>)
    requires
        gs.flatten().no_duplicates(),
    ensures
        forall|k1: int, w1: int, k2: int, w2: int|
            0 <= k1 < gs.len() && 0 <= w1 < gs[k1].len() && 0 <= k2 < gs.len() && 0 <= w2
                < gs[k2].len() && (k1 != k2 || w1 != w2) ==> #[trigger] gs[k1][w1]
                != #[trigger] gs[k2][w2],
    decreases gs.len(),
{
    if gs.len() > 0 {
        let flat = gs.flatten();
        let rest = gs.drop_first();
        assert(flat == gs[0] + rest.flatten());
        assert forall|w1: int, w2: int|
            0 <= w1 < gs[0].len() && 0 <= w2 < gs[0].len() && w1 != w2 implies gs[0][w1]
            != gs[0][w2] by {
            assert(flat[w1] == gs[0][w1]);
            assert(flat[w2] == gs[0][w2]);
        }
        assert(rest.flatten().no_duplicates()) by {
            assert forall|u1: int, u2: int|
                0 <= u1 < rest.flatten().len() && 0 <= u2 < rest.flatten().len() && u1
                    != u2 implies rest.flatten()[u1] != rest.flatten()[u2] by {
                assert(flat[gs[0].len() + u1] == rest.flatten()[u1]);
                assert(flat[gs[0].len() + u2] == rest.flatten()[u2]);
            }
        }
        lemma_groups_no_dup(rest);
        assert forall|k1: int, w1: int, k2: int, w2: int|
            0 <= k1 < gs.len() && 0 <= w1 < gs[k1].len() && 0 <= k2 < gs.len() && 0 <= w2
                < gs[k2].len() && (k1 != k2 || w1 != w2) implies #[trigger] gs[k1][w1]
            != #[trigger] gs[k2][w2] by {
            if k1 == 0 && k2 == 0 {
            } else if k1 == 0 && k2 > 0 {
                lemma_group_elem_pos(rest, k2 - 1, w2);
                let t = choose|t: int|
                    0 <= t < rest.flatten().len() && #[trigger] rest.flatten()[t] == rest[k2
                        - 1][w2];
                assert(flat[w1] == gs[0][w1]);
                assert(flat[gs[0].len() + t] == rest.flatten()[t]);
                assert(rest[k2 - 1] == gs[k2]);
            } else if k1 > 0 && k2 == 0 {
                lemma_group_elem_pos(rest, k1 - 1, w1);
                let t = choose|t: int|
                    0 <= t < rest.flatten().len() && #[trigger] rest.flatten()[t] == rest[k1
                        - 1][w1];
                assert(flat[w2] == gs[0][w2]);
                assert(flat[gs[0].len() + t] == rest.flatten()[t]);
                assert(rest[k1 - 1] == gs[k1]);
            } else {
                assert(rest[k1 - 1] == gs[k1]);
                assert(rest[k2 - 1] == gs[k2]);
            }
        }
    }
}

/// Identifier `i` stands in some Group, paired with the Digest of secret `i`.
pub open spec fn in_groups(gs: Seq<Seq<(Seq<char>, usize)>>, pw: Seq<Seq<char>>, i: int) -> bool {
    exists|k: int, w: int|
        0 <= k < gs.len() && 0 <= w < gs[k].len() && #[trigger] gs[k][w] == (
            digest_of(pw[i]),
            i as usize,
        )
}

/// The sorted pairs of an input have no duplicates: Identifiers differ.
proof fn lemma_sorted_pairs_no_dup(pw: Seq<Seq<char>>)
    requires
        pw.len() <= usize::MAX,
    ensures
        sorted_pairs(pw).no_duplicates(),
{
    broadcast use vstd::seq_lib::group_to_multiset_ensures;
    broadcast use vstd::multiset::group_multiset_axioms;

    let sp = spec_pairs(pw);
    let f = sorted_pairs(pw);
    lemma_pair_order_total();
    sp.lemma_sort_by_ensures(pair_order());
    assert(sp.no_duplicates()) by {
        assert forall|i: int, j: int|
            0 <= i < sp.len() && 0 <= j < sp.len() && i != j implies sp[i] != sp[j] by {
            assert(sp[i].1 == i as usize);
            assert(sp[j].1 == j as usize);
        }
    }
    sp.lemma_multiset_has_no_duplicates();
    f.lemma_multiset_has_no_duplicates_conv();
}

/// The partition invariant, read off Group by Group: every slot holds a
/// position of the input with that secret's Digest, no Identifier appears in
/// two slots, and every Identifier appears somewhere.
#[verifier::rlimit(50)]
pub proof fn lemma_partition_slots(pw: Seq<Seq<char>>)
    requires
        pw.len() <= usize::MAX,
    ensures
        forall|k: int, w: int|
            0 <= k < partition_of(pw).len() && 0 <= w < partition_of(pw)[k].len() ==> {
                let x = #[trigger] partition_of(pw)[k][w];
                0 <= x.1 < pw.len() && x.0 == digest_of(pw[x.1 as int])
            },
        forall|k1: int, w1: int, k2: int, w2: int|
            0 <= k1 < partition_of(pw).len() && 0 <= w1 < partition_of(pw)[k1].len() && 0 <= k2
                < partition_of(pw).len() && 0 <= w2 < partition_of(pw)[k2].len() && (k1 != k2 || w1
                != w2) ==> (#[trigger] partition_of(pw)[k1][w1]).1 != (#[trigger] partition_of(
                pw,
            )[k2][w2]).1,
        forall|i: int| 0 <= i < pw.len() ==> #[trigger] in_groups(partition_of(pw), pw, i),
{
    let gs = partition_of(pw);
    let f = sorted_pairs(pw);
    let flat = gs.flatten();
    lemma_partition_coverage(pw);
    lemma_spec_groups_flatten(f);
    assert(flat == f);
    assert forall|k: int, w: int|
        0 <= k < gs.len() && 0 <= w < gs[k].len() implies {
        let x = #[trigger] gs[k][w];
        0 <= x.1 < pw.len() && x.0 == digest_of(pw[x.1 as int])
    } by {
        lemma_group_elem_pos(gs, k, w);
        let t = choose|t: int| 0 <= t < flat.len() && #[trigger] flat[t] == gs[k][w];
        assert({
            let x = flat[t];
            0 <= x.1 < pw.len() && x.0 == digest_of(pw[x.1 as int])
        });
    }
    lemma_sorted_pairs_no_dup(pw);
    lemma_groups_no_dup(gs);
    assert forall|k1: int, w1: int, k2: int, w2: int|
        0 <= k1 < gs.len() && 0 <= w1 < gs[k1].len() && 0 <= k2 < gs.len() && 0 <= w2
            < gs[k2].len() && (k1 != k2 || w1 != w2) implies (#[trigger] gs[k1][w1]).1 != (
    #[trigger] gs[k2][w2]).1 by {
        let x1 = gs[k1][w1];
        let x2 = gs[k2][w2];
        if x1.1 == x2.1 {
            assert(x1.0 == digest_of(pw[x1.1 as int]));
            assert(x2.0 == digest_of(pw[x2.1 as int]));
            assert(x1 == x2);
        }
    }
    assert forall|i: int| 0 <= i < pw.len() implies #[trigger] in_groups(gs, pw, i) by {
        assert(appears(flat, pw, i));
        let t = choose|t: int|
            0 <= t < flat.len() && #[trigger] flat[t] == (digest_of(pw[i]), i as usize);
        lemma_flat_pos_in_groups(gs, t);
        let (k, w) = choose|k: int, w: int|
            0 <= k < gs.len() && 0 <= w < gs[k].len() && #[trigger] gs[k][w] == flat[t];
    }
}

/// The Groups of any input are well formed: nonempty, Prefix-homogeneous,
/// with strictly ascending (hence distinct) Prefixes.
pub proof fn lemma_partition_wf(pw: Seq<Seq<char>>)
    requires
        all_len40(sorted_pairs(pw)),
    ensures
        groups_well_formed(partition_of(pw)),
{
    lemma_pair_order_total();
    spec_pairs(pw).lemma_sort_by_ensures(pair_order());
    lemma_spec_groups_wf(sorted_pairs(pw));
}

/// Groups the secrets' Digests by Prefix: computes every (Digest, Identifier)
/// pair, sorts by Digest, and splits into maximal runs of equal Prefix. The
/// result is exactly the partition `partition_of` describes.
pub fn hashed_passwords(passwords: &Vec<String>) -> (groups: Vec<Vec<(String, usize)>>)
    ensures
        gview(groups@) == partition_of(views_of(passwords@)),
        forall|k: int| 0 <= k < groups@.len() ==> all_len40(#[trigger] gview(groups@)[k]),
        all_len40(sorted_pairs(views_of(passwords@))),
{
    let ghost pw = views_of(passwords@);
    let pairs = make_pairs(passwords);
    let sorted = sort_pairs(pairs);
    proof {
        lemma_pair_order_total();
        spec_pairs(pw).lemma_sort_by_ensures(pair_order());
        vstd::seq_lib::lemma_sorted_unique(pairs_view(sorted@), sorted_pairs(pw), pair_order());
        assert(pairs_view(sorted@) == sorted_pairs(pw));
    }
    group_pairs(sorted)
}

} // verus!
