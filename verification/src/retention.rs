//! The retention policy of the log directory: which files count as logs and
//! which of them a rotation pass deletes.

use crate::order::{
    lemma_lex_le_transitive, lemma_lex_lt_connected, lemma_name_order_total, lex_le, lex_less,
    lex_lt, name_order,
};
use vstd::prelude::*;
use vstd::relations::*;
use vstd::seq_lib::*;
use vstd::slice::*;

verus! {

/// How many log files are kept when the caller does not say otherwise.
pub const DEFAULT_RETAIN: usize = 20;

/// The extension that marks a log file, dot included: `.log`.
pub open spec fn log_suffix() -> Seq<u8> {
    seq![0x2eu8, 0x6cu8, 0x6fu8, 0x67u8]
}

/// A file name is that of a log when it ends in `.log` and has at least one
/// byte before the dot. A name that is only `.log` is a hidden file without
/// an extension.
pub open spec fn is_log(name: Seq<u8>) -> bool {
    name.len() > 4 && name.skip(name.len() - 4) == log_suffix()
}

/// The names held by a vector of byte strings.
pub open spec fn names_of(files: Seq<Vec<u8>>) -> Seq<Seq<u8>> {
    files.map_values(|f: Vec<u8>| f@)
}

/// The test that picks the log files out of a listing.
pub open spec fn log_names() -> spec_fn(Seq<u8>) -> bool {
    |name: Seq<u8>| is_log(name)
}

/// The log files of a directory listing, in listing order.
pub open spec fn logs_in(listing: Seq<Seq<u8>>) -> Seq<Seq<u8>> {
    listing.filter(log_names())
}

/// The log files of a directory listing, oldest name first.
pub open spec fn logs_oldest_first(listing: Seq<Seq<u8>>) -> Seq<Seq<u8>> {
    logs_in(listing).sort_by(name_order())
}

/// By how many the log files of a listing exceed `retain`.
pub open spec fn excess(listing: Seq<Seq<u8>>, retain: nat) -> nat {
    if logs_in(listing).len() > retain {
        (logs_in(listing).len() - retain) as nat
    } else {
        0
    }
}

/// The files a rotation pass deletes, in the order in which it deletes them:
/// the oldest log files beyond `retain`, oldest first.
pub open spec fn doomed(listing: Seq<Seq<u8>>, retain: nat) -> Seq<Seq<u8>> {
    logs_oldest_first(listing).take(excess(listing, retain) as int)
}

/// The log files that are left after a rotation pass, oldest first.
pub open spec fn retained(listing: Seq<Seq<u8>>, retain: nat) -> Seq<Seq<u8>> {
    logs_oldest_first(listing).skip(excess(listing, retain) as int)
}

/// The log files of a directory after one captured invocation: a rotation
/// pass, then the creation of the log file `created`. A file of that name
/// that survived the pass is reused.
pub open spec fn logs_after_invocation(
    listing: Seq<Seq<u8>>,
    retain: nat,
    created: Seq<u8>,
) -> Seq<Seq<u8>> {
    let kept = retained(listing, retain);
    if kept.contains(created) {
        kept
    } else {
        kept.push(created)
    }
}

/// The log files of a directory after a run of captured invocations, one for
/// each name of `created`, in that order.
pub open spec fn logs_after_invocations(
    listing: Seq<Seq<u8>>,
    retain: nat,
    created: Seq<Seq<u8>>,
) -> Seq<Seq<u8>>
    decreases created.len(),
{
    if created.len() == 0 {
        logs_in(listing)
    } else {
        logs_after_invocation(
            logs_after_invocations(listing, retain, created.drop_last()),
            retain,
            created.last(),
        )
    }
}

/// Decides whether a file name is that of a log.
pub fn is_log_name(name: &[u8]) -> (log: bool)
    ensures
        log == is_log(name@),
{
    let n = name.len();
    if n <= 4 {
        return false;
    }
    let log = name[n - 4] == 0x2e && name[n - 3] == 0x6c && name[n - 2] == 0x6f && name[n - 1]
        == 0x67;
    proof {
        let tail = name@.skip(n - 4);
        assert(tail[0] == name@[n - 4] && tail[1] == name@[n - 3] && tail[2] == name@[n - 2]
            && tail[3] == name@[n - 1]);
        if log {
            assert(tail =~= log_suffix());
        }
    }
    log
}

/// Puts `name` into a vector that is sorted oldest first, behind the names
/// that are equal to it.
fn insert_in_order(sorted: &mut Vec<Vec<u8>>, name: Vec<u8>)
    requires
        sorted_by(names_of(old(sorted)@), name_order()),
    ensures
        sorted_by(names_of(final(sorted)@), name_order()),
        names_of(final(sorted)@).to_multiset() == names_of(old(sorted)@).to_multiset().insert(
            name@,
        ),
{
    let ghost before = names_of(sorted@);
    let mut at: usize = 0;
    while at < sorted.len() && !lex_less(name.as_slice(), sorted[at].as_slice())
        invariant
            at <= sorted.len(),
            names_of(sorted@) == before,
            forall|i: int| 0 <= i < at ==> lex_le(#[trigger] before[i], name@),
        decreases sorted.len() - at,
    {
        proof {
            lemma_lex_lt_connected(name@, before[at as int]);
        }
        at += 1;
    }
    sorted.insert(at, name);
    proof {
        let after = names_of(sorted@);
        assert(after =~= before.insert(at as int, name@));
        to_multiset_insert(before, at as int, name@);
        lemma_name_order_total();
        assert forall|i: int, j: int| 0 <= i < j < after.len() implies #[trigger] name_order()(
            after[i],
            after[j],
        ) by {
            if i == at && j - 1 > at {
                assert(name_order()(before[at as int], before[j - 1]));
                lemma_lex_le_transitive(name@, before[at as int], before[j - 1]);
            }
        }
    }
}

/// A vector that is sorted oldest first and holds exactly the log files of a
/// listing is the listing's log files, oldest first.
proof fn lemma_sorted_logs_are_oldest_first(sorted: Seq<Seq<u8>>, listing: Seq<Seq<u8>>)
    requires
        sorted_by(sorted, name_order()),
        sorted.to_multiset() == logs_in(listing).to_multiset(),
    ensures
        sorted == logs_oldest_first(listing),
{
    lemma_name_order_total();
    logs_in(listing).lemma_sort_by_ensures(name_order());
    lemma_sorted_unique(sorted, logs_oldest_first(listing), name_order());
}

/// Plans a rotation pass over a directory listing: the names of the files to
/// delete, in the order in which to delete them. These are the oldest log
/// files beyond `retain`; other files of the listing are never named.
pub fn rotation_plan(listing: &Vec<Vec<u8>>, retain: usize) -> (plan: Vec<Vec<u8>>)
    ensures
        names_of(plan@) == doomed(names_of(listing@), retain as nat),
{
    let ghost all = names_of(listing@);
    let mut sorted: Vec<Vec<u8>> = Vec::new();
    let mut i: usize = 0;
    proof {
        assert(names_of(sorted@) =~= Seq::<Seq<u8>>::empty());
        assert(logs_in(all.take(0)) =~= Seq::<Seq<u8>>::empty());
    }
    while i < listing.len()
        invariant
            i <= listing.len(),
            all == names_of(listing@),
            sorted_by(names_of(sorted@), name_order()),
            names_of(sorted@).to_multiset() == logs_in(all.take(i as int)).to_multiset(),
        decreases listing.len() - i,
    {
        proof {
            let seen = all.take(i as int);
            assert(all.take(i + 1) =~= seen.push(all[i as int]));
            seen.lemma_filter_push(all[i as int], log_names());
            to_multiset_build(logs_in(seen), all[i as int]);
        }
        if is_log_name(listing[i].as_slice()) {
            let name = slice_to_vec(listing[i].as_slice());
            insert_in_order(&mut sorted, name);
        }
        i += 1;
    }
    proof {
        assert(all.take(i as int) =~= all);
        lemma_sorted_logs_are_oldest_first(names_of(sorted@), all);
        to_multiset_len(logs_in(all));
        to_multiset_len(names_of(sorted@));
    }
    let surplus = if sorted.len() > retain {
        sorted.len() - retain
    } else {
        0
    };
    sorted.truncate(surplus);
    sorted
}

/// What a rotation pass does to the log files of a directory: it splits them,
/// oldest first, into those it deletes and those it keeps; it deletes only
/// log files that the listing names, no more than the excess over `retain`,
/// and none that is newer than one it keeps. At most `retain` are left.
pub proof fn lemma_rotation_pass(listing: Seq<Seq<u8>>, retain: nat)
    ensures
        doomed(listing, retain) + retained(listing, retain) == logs_oldest_first(listing),
        logs_oldest_first(listing).to_multiset() == logs_in(listing).to_multiset(),
        doomed(listing, retain).len() == excess(listing, retain),
        retained(listing, retain).len() == logs_in(listing).len() - excess(listing, retain),
        retained(listing, retain).len() <= retain,
        forall|i: int|
            0 <= i < doomed(listing, retain).len() ==> is_log(
                #[trigger] doomed(listing, retain)[i],
            ) && listing.contains(doomed(listing, retain)[i]),
        forall|i: int, j: int|
            0 <= i < doomed(listing, retain).len() && 0 <= j < retained(listing, retain).len()
                ==> lex_le(
                #[trigger] doomed(listing, retain)[i],
                #[trigger] retained(listing, retain)[j],
            ),
{
    let logs = logs_in(listing);
    let sorted = logs_oldest_first(listing);
    let cut = excess(listing, retain) as int;
    lemma_name_order_total();
    logs.lemma_sort_by_ensures(name_order());
    to_multiset_len(logs);
    to_multiset_len(sorted);
    assert forall|i: int| 0 <= i < doomed(listing, retain).len() implies is_log(
        #[trigger] doomed(listing, retain)[i],
    ) && listing.contains(doomed(listing, retain)[i]) by {
        let name = sorted[i];
        assert(sorted.contains(name));
        let at = choose|at: int| 0 <= at < logs.len() && logs[at] == name;
        lemma_logs_come_from_listing(listing, at);
    }
    assert forall|i: int, j: int|
        0 <= i < doomed(listing, retain).len() && 0 <= j < retained(listing, retain).len()
        implies lex_le(
        #[trigger] doomed(listing, retain)[i],
        #[trigger] retained(listing, retain)[j],
    ) by {
        assert(name_order()(sorted[i], sorted[cut + j]));
    }
}

/// Each entry of the log files of a listing is a log file that the listing
/// names.
proof fn lemma_logs_come_from_listing(listing: Seq<Seq<u8>>, at: int)
    requires
        0 <= at < logs_in(listing).len(),
    ensures
        is_log(logs_in(listing)[at]),
        listing.contains(logs_in(listing)[at]),
{
    let logs = logs_in(listing);
    listing.lemma_filter_pred(log_names(), at);
    listing.lemma_filter_contains_rev(log_names(), logs[at]);
}

/// After a captured invocation a directory holds at most `retain + 1` log
/// files. It holds at most `retain` exactly when it held fewer than `retain`
/// before, or when the new log file took the name of one that was kept.
pub proof fn lemma_invocation_bound(listing: Seq<Seq<u8>>, retain: nat, created: Seq<u8>)
    ensures
        logs_after_invocation(listing, retain, created).len() <= retain + 1,
        logs_after_invocation(listing, retain, created).len() <= logs_in(listing).len() + 1,
        logs_after_invocation(listing, retain, created).len() <= retain <==> (logs_in(
            listing,
        ).len() < retain || retained(listing, retain).contains(created)),
{
    lemma_rotation_pass(listing, retain);
}

/// Over any run of captured invocations the log files of a directory never
/// number more than `retain + 1` after an invocation, and never more than
/// `retain` while the files that were there and those that the run created
/// number no more than `retain` together.
pub proof fn lemma_invocations_bound(listing: Seq<Seq<u8>>, retain: nat, created: Seq<Seq<u8>>)
    ensures
        created.len() > 0 ==> logs_after_invocations(listing, retain, created).len() <= retain
            + 1,
        logs_after_invocations(listing, retain, created).len() <= logs_in(listing).len()
            + created.len(),
        logs_in(listing).len() + created.len() <= retain ==> logs_after_invocations(
            listing,
            retain,
            created,
        ).len() <= retain,
    decreases created.len(),
{
    if created.len() > 0 {
        let earlier = logs_after_invocations(listing, retain, created.drop_last());
        lemma_invocations_bound(listing, retain, created.drop_last());
        lemma_invocation_bound(earlier, retain, created.last());
        earlier.lemma_filter_len(log_names());
    }
}

} // verus!
