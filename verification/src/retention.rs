//! The retention policy: which snapshots a pruning pass deletes.
//!
//! A pass sees the destination directory as a list of entries, each a
//! file name with its creation time, orders them oldest first (ties
//! broken by name), and deletes entries from the front until at most
//! the configured limit remain.

use vstd::prelude::*;
use vstd::relations::sorted_by;
use vstd::relations::total_ordering;
use vstd::seq_lib::lemma_sorted_unique;
use vstd::seq_lib::lemma_multiset_commutative;
use vstd::seq_lib::group_to_multiset_ensures;
use vstd::multiset::group_multiset_axioms;

verus! {

broadcast use group_to_multiset_ensures, group_multiset_axioms;

/// One candidate snapshot: a file directly inside the destination
/// directory, named `name`, created at `created` (nanoseconds since an
/// arbitrary fixed epoch; where a file system reports no creation
/// time, the caller substitutes the last-modified time).
pub struct Entry {
    pub created: u128,
    pub name: Vec<u8>,
}

/// The mathematical value of an [`Entry`].
#[verifier::ext_equal]
pub struct EntryV {
    pub created: u128,
    pub name: Seq<u8>,
}

impl View for Entry {
    type V = EntryV;

    open spec fn view(&self) -> EntryV {
        EntryV { created: self.created, name: self.name@ }
    }
}

/// The values of a list of entries.
pub open spec fn views(s: Seq<Entry>) -> Seq<EntryV> {
    s.map_values(|e: Entry| e@)
}

/// Lexicographic byte-string order, decided from position `i` on:
/// a proper prefix comes first, otherwise the first differing byte
/// decides.
pub open spec fn lex_le_from(a: Seq<u8>, b: Seq<u8>, i: int) -> bool
    decreases a.len() - i,
{
    if i >= a.len() {
        true
    } else if i >= b.len() {
        false
    } else if a[i] < b[i] {
        true
    } else if a[i] > b[i] {
        false
    } else {
        lex_le_from(a, b, i + 1)
    }
}

/// Lexicographic order on byte strings.
pub open spec fn lex_le(a: Seq<u8>, b: Seq<u8>) -> bool {
    lex_le_from(a, b, 0)
}

/// Retention order: older first; equal creation times fall back to the
/// file name.
pub open spec fn entry_le(a: EntryV, b: EntryV) -> bool {
    ||| a.created < b.created
    ||| (a.created == b.created && lex_le(a.name, b.name))
}

/// The retention order as a relation value, for the sequence lemmas.
pub open spec fn entry_order() -> spec_fn(EntryV, EntryV) -> bool {
    |a: EntryV, b: EntryV| entry_le(a, b)
}

proof fn lemma_lex_le_refl_from(a: Seq<u8>, i: int)
    ensures
        lex_le_from(a, a, i),
    decreases a.len() - i,
{
    if i < a.len() {
        lemma_lex_le_refl_from(a, i + 1);
    }
}

proof fn lemma_lex_le_connected_from(a: Seq<u8>, b: Seq<u8>, i: int)
    ensures
        lex_le_from(a, b, i) || lex_le_from(b, a, i),
    decreases a.len() - i,
{
    if i < a.len() && i < b.len() && a[i] == b[i] {
        lemma_lex_le_connected_from(a, b, i + 1);
    }
}

proof fn lemma_lex_le_antisym_from(a: Seq<u8>, b: Seq<u8>, i: int)
    requires
        0 <= i <= a.len(),
        i <= b.len(),
        lex_le_from(a, b, i),
        lex_le_from(b, a, i),
    ensures
        a.skip(i) =~= b.skip(i),
    decreases a.len() - i,
{
    if i >= a.len() {
        assert(i >= b.len());
        assert(a.skip(i) =~= b.skip(i));
    } else {
        assert(i < b.len());
        assert(a[i] == b[i]);
        lemma_lex_le_antisym_from(a, b, i + 1);
        assert forall|j: int| 0 <= j < a.skip(i).len() implies a.skip(i)[j] == b.skip(i)[j] by {
            if j > 0 {
                assert(a.skip(i)[j] == a.skip(i + 1)[j - 1]);
                assert(b.skip(i)[j] == b.skip(i + 1)[j - 1]);
            }
        }
    }
}

proof fn lemma_lex_le_trans_from(a: Seq<u8>, b: Seq<u8>, c: Seq<u8>, i: int)
    requires
        0 <= i,
        lex_le_from(a, b, i),
        lex_le_from(b, c, i),
    ensures
        lex_le_from(a, c, i),
    decreases a.len() - i,
{
    if i < a.len() {
        assert(i < b.len());
        assert(i < c.len());
        if a[i] == b[i] && b[i] == c[i] {
            lemma_lex_le_trans_from(a, b, c, i + 1);
        }
    }
}

/// The retention order is reflexive.
pub proof fn lemma_entry_le_refl(a: EntryV)
    ensures
        entry_le(a, a),
{
    lemma_lex_le_refl_from(a.name, 0);
}

/// Any two entries are comparable under the retention order.
pub proof fn lemma_entry_le_connected(a: EntryV, b: EntryV)
    ensures
        entry_le(a, b) || entry_le(b, a),
{
    if a.created == b.created {
        lemma_lex_le_connected_from(a.name, b.name, 0);
    }
}

/// Entries ordered both ways are the same entry.
pub proof fn lemma_entry_le_antisym(a: EntryV, b: EntryV)
    requires
        entry_le(a, b),
        entry_le(b, a),
    ensures
        a == b,
{
    lemma_lex_le_antisym_from(a.name, b.name, 0);
    assert(a.name =~= a.name.skip(0));
    assert(b.name =~= b.name.skip(0));
    assert(a =~= b);
}

/// The retention order is transitive.
pub proof fn lemma_entry_le_trans(a: EntryV, b: EntryV, c: EntryV)
    requires
        entry_le(a, b),
        entry_le(b, c),
    ensures
        entry_le(a, c),
{
    if a.created == b.created && b.created == c.created {
        lemma_lex_le_trans_from(a.name, b.name, c.name, 0);
    }
}

/// The retention order is a total order.
pub proof fn lemma_entry_order_total()
    ensures
        total_ordering(entry_order()),
{
    let r = entry_order();
    assert forall|a: EntryV| #[trigger] r(a, a) by {
        lemma_entry_le_refl(a);
    }
    assert forall|a: EntryV, b: EntryV| #[trigger] r(a, b) && #[trigger] r(b, a) implies a == b by {
        lemma_entry_le_antisym(a, b);
    }
    assert forall|a: EntryV, b: EntryV, c: EntryV| #[trigger] r(a, b) && #[trigger] r(
        b,
        c,
    ) implies r(a, c) by {
        lemma_entry_le_trans(a, b, c);
    }
    assert forall|a: EntryV, b: EntryV| #[trigger] r(a, b) || #[trigger] r(b, a) by {
        lemma_entry_le_connected(a, b);
    }
}

/// Decides `lex_le` on byte vectors.
fn lex_le_exec(a: &Vec<u8>, b: &Vec<u8>) -> (r: bool)
    ensures
        r == lex_le(a@, b@),
{
    let alen = a.len();
    let blen = b.len();
    let mut i: usize = 0;
    while i < alen && i < blen
        invariant
            i <= alen,
            i <= blen,
            alen == a@.len(),
            blen == b@.len(),
            lex_le(a@, b@) == lex_le_from(a@, b@, i as int),
        decreases alen - i,
    {
        let x = a[i];
        let y = b[i];
        if x < y {
            return true;
        }
        if x > y {
            return false;
        }
        i += 1;
    }
    alen <= blen
}

/// The entries of a pass in retention order, oldest first.
pub open spec fn retention_sorted(s: Seq<EntryV>) -> Seq<EntryV> {
    s.sort_by(entry_order())
}

/// What ordering a list in retention order means, spelled out.
pub proof fn lemma_retention_sorted_props(s: Seq<EntryV>)
    ensures
        sorted_by(retention_sorted(s), entry_order()),
        retention_sorted(s).to_multiset() == s.to_multiset(),
        retention_sorted(s).len() == s.len(),
{
    broadcast use group_to_multiset_ensures;

    lemma_entry_order_total();
    s.lemma_sort_by_ensures(entry_order());
    assert(retention_sorted(s).len() == retention_sorted(s).to_multiset().len());
    assert(s.len() == s.to_multiset().len());
}

/// A list already in retention order is its own sorted form.
pub proof fn lemma_sorted_is_fixpoint(s: Seq<EntryV>)
    requires
        sorted_by(s, entry_order()),
    ensures
        retention_sorted(s) == s,
{
    lemma_entry_order_total();
    lemma_retention_sorted_props(s);
    lemma_sorted_unique(retention_sorted(s), s, entry_order());
}

/// Decides the retention order on entries.
fn entry_le_exec(a: &Entry, b: &Entry) -> (r: bool)
    ensures
        r == entry_le(a@, b@),
{
    if a.created < b.created {
        true
    } else if a.created == b.created {
        lex_le_exec(&a.name, &b.name)
    } else {
        false
    }
}

/// The first index of `out` whose entry does not precede `e`, assuming
/// `out` is in retention order; `e` belongs just before that index.
fn insertion_point(out: &Vec<Entry>, e: &Entry) -> (pos: usize)
    ensures
        pos <= out@.len(),
        forall|k: int| 0 <= k < pos ==> #[trigger] entry_le(views(out@)[k], e@),
        pos < out@.len() ==> !entry_le(views(out@)[pos as int], e@),
{
    let mut pos: usize = 0;
    while pos < out.len()
        invariant
            pos <= out@.len(),
            forall|k: int| 0 <= k < pos ==> #[trigger] entry_le(views(out@)[k], e@),
        decreases out@.len() - pos,
    {
        if !entry_le_exec(&out[pos], e) {
            proof {
                assert(views(out@)[pos as int] == out@[pos as int]@);
            }
            return pos;
        }
        proof {
            assert(views(out@)[pos as int] == out@[pos as int]@);
        }
        pos += 1;
    }
    pos
}

/// Puts a list of entries into retention order by insertion.
pub fn sort_entries(entries: Vec<Entry>) -> (out: Vec<Entry>)
    ensures
        views(out@) == retention_sorted(views(entries@)),
{
    let mut rest = entries;
    let mut out: Vec<Entry> = Vec::new();
    proof {
        assert(views(out@) =~= Seq::<EntryV>::empty());
        assert(views(out@).to_multiset().add(views(rest@).to_multiset()) =~= views(
            rest@,
        ).to_multiset());
    }
    while rest.len() > 0
        invariant
            sorted_by(views(out@), entry_order()),
            views(out@).to_multiset().add(views(rest@).to_multiset()) == views(
                entries@,
            ).to_multiset(),
        decreases rest@.len(),
    {
        let ghost rest_before = rest@;
        let e = rest.pop().unwrap();
        proof {
            assert(views(rest_before) =~= views(rest@).push(e@));
            assert(views(rest@).push(e@).to_multiset() == views(rest@).to_multiset().insert(e@));
        }
        let pos = insertion_point(&out, &e);
        let ghost out_before = views(out@);
        out.insert(pos, e);
        proof {
            assert(views(out@) =~= out_before.insert(pos as int, e@));
            let ov = views(out@);
            assert forall|x: int, y: int| 0 <= x < y < ov.len() implies #[trigger] entry_order()(
                ov[x],
                ov[y],
            ) by {
                let r = entry_order();
                let p = pos as int;
                out_before.insert_ensures(p, e@);
                if y < p {
                    assert(r(out_before[x], out_before[y]));
                } else if y == p {
                    assert(ov[y] == e@);
                    assert(entry_le(out_before[x], e@));
                } else if x < p {
                    assert(ov[y] == out_before[y - 1]);
                    assert(r(out_before[x], out_before[y - 1]));
                } else if x == p {
                    assert(ov[x] == e@);
                    assert(ov[y] == out_before[y - 1]);
                    assert(p < out_before.len());
                    assert(!entry_le(out_before[p], e@));
                    lemma_entry_le_connected(out_before[p], e@);
                    assert(entry_le(e@, out_before[p]));
                    if y - 1 > p {
                        assert(r(out_before[p], out_before[y - 1]));
                        lemma_entry_le_trans(e@, out_before[p], out_before[y - 1]);
                    }
                } else {
                    assert(ov[x] == out_before[x - 1]);
                    assert(ov[y] == out_before[y - 1]);
                    assert(r(out_before[x - 1], out_before[y - 1]));
                }
                assert(entry_le(ov[x], ov[y]));
            }
            assert(views(out@).to_multiset() == out_before.to_multiset().insert(e@));
            assert(views(out@).to_multiset().add(views(rest@).to_multiset()) == views(
                entries@,
            ).to_multiset());
        }
    }
    proof {
        assert(views(rest@) =~= Seq::<EntryV>::empty());
        assert(views(out@).to_multiset() =~= views(entries@).to_multiset());
        lemma_entry_order_total();
        lemma_retention_sorted_props(views(entries@));
        lemma_sorted_unique(views(out@), retention_sorted(views(entries@)), entry_order());
    }
    out
}

/// How many entries a pass over `s` with limit `limit` must delete.
pub open spec fn excess(s: Seq<EntryV>, limit: int) -> int {
    if s.len() > limit {
        s.len() - limit
    } else {
        0
    }
}

/// The entries a retention pass deletes: the oldest, in deletion
/// order, as many as stand over the limit.
pub open spec fn retention_deleted(s: Seq<EntryV>, limit: int) -> Seq<EntryV> {
    retention_sorted(s).take(excess(s, limit))
}

/// The entries a retention pass leaves: the newest, at most `limit`
/// of them, still in retention order.
pub open spec fn retention_kept(s: Seq<EntryV>, limit: int) -> Seq<EntryV> {
    retention_sorted(s).skip(excess(s, limit))
}

/// Plans one retention pass: splits the entries of the destination
/// directory into the list to delete, oldest first, and the list that
/// survives.
pub fn prune_plan(entries: Vec<Entry>, limit: u64) -> (r: (Vec<Entry>, Vec<Entry>))
    ensures
        views(r.0@) == retention_deleted(views(entries@), limit as int),
        views(r.1@) == retention_kept(views(entries@), limit as int),
{
    let sorted = sort_entries(entries);
    proof {
        lemma_retention_sorted_props(views(entries@));
    }
    let total = sorted.len();
    let cut: usize = if limit < total as u64 {
        (total as u64 - limit) as usize
    } else {
        0
    };
    proof {
        assert(cut as int == excess(views(entries@), limit as int));
    }
    let ghost sraw = sorted@;
    let mut rest = sorted;
    let mut deleted: Vec<Entry> = Vec::new();
    let mut i: usize = 0;
    proof {
        assert(deleted@ =~= sraw.take(0));
        assert(rest@ =~= sraw.skip(0));
    }
    while i < cut
        invariant
            i <= cut,
            cut <= sraw.len(),
            deleted@ == sraw.take(i as int),
            rest@ == sraw.skip(i as int),
        decreases cut - i,
    {
        let e = rest.remove(0);
        deleted.push(e);
        i += 1;
        proof {
            assert(rest@ =~= sraw.skip(i as int));
            assert(deleted@ =~= sraw.take(i as int));
        }
    }
    proof {
        assert(views(deleted@) =~= views(sraw).take(cut as int));
        assert(views(rest@) =~= views(sraw).skip(cut as int));
    }
    (deleted, rest)
}

/// One tick's worth of bookkeeping, in the order the loop performs it:
/// the freshly written snapshot joins the candidates, then one
/// retention pass splits them into deleted and kept. The new snapshot
/// itself is eligible for immediate deletion if it lands over the
/// limit.
pub fn apply_tick(entries: Vec<Entry>, new_snapshot: Entry, limit: u64) -> (r: (
    Vec<Entry>,
    Vec<Entry>,
))
    ensures
        views(r.0@) == retention_deleted(views(entries@).push(new_snapshot@), limit as int),
        views(r.1@) == retention_kept(views(entries@).push(new_snapshot@), limit as int),
{
    let mut all = entries;
    all.push(new_snapshot);
    proof {
        assert(views(all@) =~= views(entries@).push(new_snapshot@));
    }
    prune_plan(all, limit)
}

/// Retention invariant. After one pass over entries `s` with limit
/// `limit`: the kept entries number `min(s.len(), limit)`; deleted and
/// kept together are a reordering of `s` and nothing else; and every
/// deleted entry precedes every kept entry in retention order, so the
/// survivors are exactly the newest.
pub proof fn lemma_retention_invariant(s: Seq<EntryV>, limit: int)
    requires
        limit >= 0,
    ensures
        retention_kept(s, limit).len() == if s.len() <= limit {
            s.len() as int
        } else {
            limit
        },
        retention_kept(s, limit).len() <= limit,
        retention_deleted(s, limit) + retention_kept(s, limit) == retention_sorted(s),
        retention_sorted(s).to_multiset() == s.to_multiset(),
        retention_deleted(s, limit).to_multiset().add(retention_kept(s, limit).to_multiset())
            == s.to_multiset(),
        sorted_by(retention_sorted(s), entry_order()),
        forall|i: int, j: int|
            0 <= i < retention_deleted(s, limit).len() && 0 <= j < retention_kept(s, limit).len()
                ==> entry_le(
                #[trigger] retention_deleted(s, limit)[i],
                #[trigger] retention_kept(s, limit)[j],
            ),
{
    lemma_retention_sorted_props(s);
    let srt = retention_sorted(s);
    let c = excess(s, limit);
    assert(srt.take(c) + srt.skip(c) =~= srt);
    lemma_multiset_commutative(retention_deleted(s, limit), retention_kept(s, limit));
    assert forall|i: int, j: int|
        0 <= i < retention_deleted(s, limit).len() && 0 <= j < retention_kept(
            s,
            limit,
        ).len() implies entry_le(
        #[trigger] retention_deleted(s, limit)[i],
        #[trigger] retention_kept(s, limit)[j],
    ) by {
        let r = entry_order();
        assert(retention_deleted(s, limit)[i] == srt[i]);
        assert(retention_kept(s, limit)[j] == srt[c + j]);
        assert(r(srt[i], srt[c + j]));
    }
}

/// Pruning is idempotent: a second pass over what the first pass kept,
/// with the same limit, deletes nothing and keeps it unchanged.
pub proof fn lemma_prune_idempotent(s: Seq<EntryV>, limit: int)
    requires
        limit >= 0,
    ensures
        retention_deleted(retention_kept(s, limit), limit) == Seq::<EntryV>::empty(),
        retention_kept(retention_kept(s, limit), limit) == retention_kept(s, limit),
{
    lemma_retention_sorted_props(s);
    let srt = retention_sorted(s);
    let c = excess(s, limit);
    let kept = retention_kept(s, limit);
    assert(sorted_by(kept, entry_order())) by {
        let r = entry_order();
        assert forall|x: int, y: int| 0 <= x < y < kept.len() implies #[trigger] r(
            kept[x],
            kept[y],
        ) by {
            assert(kept[x] == srt[c + x]);
            assert(kept[y] == srt[c + y]);
            assert(r(srt[c + x], srt[c + y]));
        }
    }
    lemma_sorted_is_fixpoint(kept);
    assert(kept.len() <= limit);
    assert(excess(kept, limit) == 0);
    assert(retention_sorted(kept).take(0) =~= Seq::<EntryV>::empty());
    assert(retention_sorted(kept).skip(0) =~= kept);
}

/// Oldest-first deletion: four snapshots with strictly increasing
/// creation times and a limit of two lose exactly the two oldest and
/// keep the two newest, in order.
pub proof fn lemma_oldest_first_four(e1: EntryV, e2: EntryV, e3: EntryV, e4: EntryV)
    requires
        e1.created < e2.created,
        e2.created < e3.created,
        e3.created < e4.created,
    ensures
        retention_deleted(seq![e1, e2, e3, e4], 2) == seq![e1, e2],
        retention_kept(seq![e1, e2, e3, e4], 2) == seq![e3, e4],
{
    let s = seq![e1, e2, e3, e4];
    assert(sorted_by(s, entry_order())) by {
        let r = entry_order();
        assert forall|x: int, y: int| 0 <= x < y < s.len() implies #[trigger] r(s[x], s[y]) by {
            assert(s[x].created < s[y].created);
        }
    }
    lemma_sorted_is_fixpoint(s);
    assert(excess(s, 2) == 2);
    assert(s.take(2) =~= seq![e1, e2]);
    assert(s.skip(2) =~= seq![e3, e4]);
}

} // verus!
