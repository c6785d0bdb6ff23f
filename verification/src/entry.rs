use vstd::prelude::*;
use vstd::string::*;

verus! {

/// One secret as it came out of the credential store: an opaque display
/// label and the secret itself. The label only serves reporting; the check
/// pipeline never reads it.
pub struct Entry {
    pub designator: String,
    pub password: String,
}

/// The labels of a sequence of entries.
pub open spec fn designators(entries: Seq<Entry>) -> Seq<Seq<char>> {
    entries.map_values(|e: Entry| e.designator@)
}

/// `p` is a leading segment of `s`.
pub open spec fn starts_with(s: Seq<char>, p: Seq<char>) -> bool {
    p.len() <= s.len() && s.take(p.len() as int) == p
}

/// Cutting the first label after position `i` works: position `i` holds a
/// separator, and every other label begins with the same segment.
pub open spec fn cut_works(ds: Seq<Seq<char>>, i: int) -> bool {
    &&& 0 <= i < ds[0].len()
    &&& ds[0][i] == '/'
    &&& forall|e: int| 1 <= e < ds.len() ==> starts_with(#[trigger] ds[e], ds[0].take(i + 1))
}

/// The rightmost position below `j` where cutting works, or -1.
pub open spec fn best_cut(ds: Seq<Seq<char>>, j: int) -> int
    decreases j,
{
    if j <= 0 {
        -1
    } else if cut_works(ds, j - 1) {
        j - 1
    } else {
        best_cut(ds, j - 1)
    }
}

/// The position the labels are cut at: the rightmost separator of the first
/// label up to which every label agrees; -1 when there are no entries or no
/// such separator.
pub open spec fn common_cut(ds: Seq<Seq<char>>) -> int {
    if ds.len() == 0 {
        -1
    } else {
        best_cut(ds, ds[0].len() as int)
    }
}

/// What `best_cut` answers: a working position with none above it, or -1
/// with no working position at all.
pub proof fn lemma_best_cut_props(ds: Seq<Seq<char>>, j: int)
    requires
        0 <= j,
    ensures
        -1 <= best_cut(ds, j) < j,
        best_cut(ds, j) >= 0 ==> cut_works(ds, best_cut(ds, j)),
        forall|i: int| best_cut(ds, j) < i < j ==> !cut_works(ds, i),
    decreases j,
{
    if j > 0 && !cut_works(ds, j - 1) {
        lemma_best_cut_props(ds, j - 1);
    }
}

/// Decides whether `s` begins with the first `plen` characters of `first`.
fn starts_with_prefix(s: &str, first: &str, plen: usize) -> (r: bool)
    requires
        plen <= first@.len(),
    ensures
        r == starts_with(s@, first@.take(plen as int)),
{
    let slen = s.unicode_len();
    if slen < plen {
        return false;
    }
    let mut i: usize = 0;
    while i < plen
        invariant
            i <= plen <= first@.len(),
            plen <= s@.len(),
            forall|t: int| 0 <= t < i ==> s@[t] == first@[t],
        decreases plen - i,
    {
        if s.get_char(i) != first.get_char(i) {
            proof {
                assert(s@.take(plen as int)[i as int] != first@.take(plen as int)[i as int]);
            }
            return false;
        }
        i = i + 1;
    }
    proof {
        assert(s@.take(plen as int) =~= first@.take(plen as int));
    }
    true
}

/// Decides whether every label beyond the first begins with the first
/// label's leading `plen` characters.
fn all_start_with(entries: &Vec<Entry>, plen: usize) -> (ok: bool)
    requires
        entries@.len() > 0,
        plen <= entries@[0].designator@.len(),
    ensures
        ok == forall|e: int|
            1 <= e < entries@.len() ==> starts_with(
                #[trigger] designators(entries@)[e],
                designators(entries@)[0].take(plen as int),
            ),
{
    let ghost ds = designators(entries@);
    let mut e: usize = 1;
    while e < entries.len()
        invariant
            1 <= e <= entries@.len(),
            ds == designators(entries@),
            plen <= ds[0].len(),
            forall|t: int| 1 <= t < e ==> starts_with(#[trigger] ds[t], ds[0].take(plen as int)),
        decreases entries@.len() - e,
    {
        proof {
            assert(ds[e as int] == entries@[e as int].designator@);
            assert(ds[0] == entries@[0].designator@);
        }
        if !starts_with_prefix(
            entries[e].designator.as_str(),
            entries[0].designator.as_str(),
            plen,
        ) {
            return false;
        }
        e = e + 1;
    }
    true
}

/// The longest leading segment, ending at a separator of the first label,
/// that every label shares: `Some` exactly when entries exist and some
/// separator position works, and then the segment up to the rightmost such
/// position.
pub fn common_prefix(entries: &Vec<Entry>) -> (r: Option<String>)
    ensures
        r is Some <==> common_cut(designators(entries@)) >= 0,
        r is Some ==> r->0@ == designators(entries@)[0].take(
            common_cut(designators(entries@)) + 1,
        ),
{
    let ghost ds = designators(entries@);
    if entries.len() == 0 {
        return None;
    }
    proof {
        assert(ds[0] == entries@[0].designator@);
    }
    let first_len = entries[0].designator.as_str().unicode_len();
    let mut j = first_len;
    while j > 0
        invariant
            j <= first_len,
            first_len == ds[0].len(),
            entries@.len() > 0,
            ds == designators(entries@),
            best_cut(ds, first_len as int) == best_cut(ds, j as int),
        decreases j,
    {
        let i = j - 1;
        let c = entries[0].designator.as_str().get_char(i);
        if c == '/' {
            if all_start_with(entries, i + 1) {
                proof {
                    assert(cut_works(ds, i as int));
                    assert(best_cut(ds, j as int) == i as int);
                }
                return Some(entries[0].designator.as_str().substring_char(0, i + 1).to_owned());
            }
            proof {
                assert(!cut_works(ds, i as int));
            }
        } else {
            proof {
                assert(!cut_works(ds, i as int));
            }
        }
        j = i;
    }
    None
}

/// Cuts the shared leading segment off every label, leaving the part that
/// distinguishes the entries; entries and passwords stay as they were, and
/// when no shared segment exists nothing changes at all.
pub fn remove_common_prefix(entries: &mut Vec<Entry>)
    ensures
        final (entries)@.len() == old(entries)@.len(),
        common_cut(designators(old(entries)@)) < 0 ==> final (entries)@ == old(entries)@,
        common_cut(designators(old(entries)@)) >= 0 ==> forall|e: int|
            0 <= e < old(entries)@.len() ==> {
                let cut = common_cut(designators(old(entries)@));
                &&& (#[trigger] final (entries)@[e]).designator@ == old(
                    entries,
                )@[e].designator@.skip(cut + 1)
                &&& final (entries)@[e].password == old(entries)@[e].password
            },
{
    let ghost ds = designators(old(entries)@);
    let prefix = common_prefix(entries);
    match prefix {
        None => {},
        Some(p) => {
            let ghost cut = common_cut(ds);
            proof {
                assert(entries@.len() > 0);
                lemma_best_cut_props(ds, ds[0].len() as int);
                assert(cut_works(ds, cut));
            }
            let trim = p.as_str().unicode_len();
            let mut e: usize = 0;
            while e < entries.len()
                invariant
                    e <= entries@.len(),
                    entries@.len() == old(entries)@.len(),
                    trim == cut + 1,
                    cut_works(ds, cut),
                    ds == designators(old(entries)@),
                    forall|t: int|
                        e <= t < entries@.len() ==> #[trigger] entries@[t] == old(entries)@[t],
                    forall|t: int|
                        0 <= t < e ==> {
                            &&& (#[trigger] entries@[t]).designator@ == old(
                                entries,
                            )@[t].designator@.skip(cut + 1)
                            &&& entries@[t].password == old(entries)@[t].password
                        },
                decreases entries@.len() - e,
            {
                proof {
                    assert(ds[e as int] == old(entries)@[e as int].designator@);
                    if e >= 1 {
                        assert(starts_with(ds[e as int], ds[0].take(cut + 1)));
                    }
                }
                let dlen = entries[e].designator.as_str().unicode_len();
                let d = entries[e].designator.as_str().substring_char(trim, dlen).to_owned();
                proof {
                    assert(d@ =~= old(entries)@[e as int].designator@.skip(cut + 1));
                }
                entries[e].designator = d;
                e = e + 1;
            }
        },
    }
}

} // verus!
