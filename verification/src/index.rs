//! The name index: an immutable mapping from sequence identifier to the
//! ascending list of destination indices that request it, together with the
//! expected per-destination record counts.

use vstd::prelude::*;

verus! {

broadcast use
    vstd::seq_lib::lemma_seq_contains_after_push,
    vstd::seq_lib::group_filter_ensures;

/// The predicate selecting non-blank lines.
pub open spec fn is_nonblank(line: Seq<u8>) -> bool {
    line.len() > 0
}

/// The non-blank lines of one name-list file, in order.
pub open spec fn nonblank(list: Seq<Seq<u8>>) -> Seq<Seq<u8>> {
    list.filter(|line: Seq<u8>| is_nonblank(line))
}

/// Whether one list requests an identifier. Blank lines request nothing, so a
/// blank identifier is never requested.
pub open spec fn list_requests(list: Seq<Seq<u8>>, id: Seq<u8>) -> bool {
    id.len() > 0 && list.contains(id)
}

/// Whether some identifier occurs on two non-blank lines of the same list.
pub open spec fn has_duplicate(list: Seq<Seq<u8>>) -> bool {
    exists|j: int, k: int|
        0 <= j < k < nonblank(list).len() && nonblank(list)[j] == nonblank(list)[k]
}

/// Whether `name` occurs on two non-blank lines of `list`.
pub open spec fn duplicated_in(list: Seq<Seq<u8>>, name: Seq<u8>) -> bool {
    exists|j: int, k: int|
        0 <= j < k < nonblank(list).len() && #[trigger] nonblank(list)[j] == name
            && #[trigger] nonblank(list)[k] == name
}

/// A configuration is valid when no single list names an identifier twice.
pub open spec fn lists_valid(lists: Seq<Seq<Seq<u8>>>) -> bool {
    forall|i: int| 0 <= i < lists.len() ==> !has_duplicate(#[trigger] lists[i])
}

/// Expected per-destination counts: the number of non-blank lines of each list.
pub open spec fn expected_counts(lists: Seq<Seq<Seq<u8>>>) -> Seq<int> {
    Seq::new(lists.len(), |i: int| nonblank(lists[i]).len() as int)
}

/// The destination indices whose lists request `id`, in ascending order.
pub open spec fn dests_of(lists: Seq<Seq<Seq<u8>>>, id: Seq<u8>) -> Seq<int>
    decreases lists.len(),
{
    if lists.len() == 0 {
        Seq::empty()
    } else {
        dests_of(lists.drop_last(), id)
            + if list_requests(lists.last(), id) {
                seq![lists.len() - 1]
            } else {
                Seq::empty()
            }
    }
}

/// Membership in the non-blank lines is membership among the lines, for a
/// non-blank identifier.
pub proof fn lemma_nonblank_contains(list: Seq<Seq<u8>>, id: Seq<u8>)
    ensures
        nonblank(list).contains(id) <==> list_requests(list, id),
    decreases list.len(),
{
    let pred = |line: Seq<u8>| is_nonblank(line);
    if list.len() == 0 {
        assert(!list.contains(id));
    } else {
        let dl = list.drop_last();
        lemma_nonblank_contains(dl, id);
        dl.lemma_filter_push(list.last(), pred);
        assert(dl.push(list.last()) =~= list);
        if dl.contains(id) {
            let w = choose|w: int| 0 <= w < dl.len() && dl[w] == id;
            assert(list[w] == id);
        }
        if list.contains(id) && list.last() != id {
            let w = choose|w: int| 0 <= w < list.len() && list[w] == id;
            assert(dl[w] == id);
        }
    }
}

/// Destinations are in range, strictly ascending, and a destination is listed
/// exactly when its list requests the identifier.
pub proof fn lemma_dests_of(lists: Seq<Seq<Seq<u8>>>, id: Seq<u8>)
    ensures
        dests_of(lists, id).len() <= lists.len(),
        forall|p: int| 0 <= p < dests_of(lists, id).len()
            ==> 0 <= #[trigger] dests_of(lists, id)[p] < lists.len(),
        forall|p: int, q: int| 0 <= p < q < dests_of(lists, id).len()
            ==> dests_of(lists, id)[p] < dests_of(lists, id)[q],
        forall|i: int| 0 <= i < lists.len()
            ==> (dests_of(lists, id).contains(i) <==> list_requests(#[trigger] lists[i], id)),
    decreases lists.len(),
{
    if lists.len() > 0 {
        let dl = lists.drop_last();
        lemma_dests_of(dl, id);
        let prev = dests_of(dl, id);
        let cur = dests_of(lists, id);
        assert forall|i: int| 0 <= i < lists.len()
            implies (cur.contains(i) <==> list_requests(lists[i], id)) by {
            if i < lists.len() - 1 {
                assert(dl[i] == lists[i]);
                if prev.contains(i) {
                    let p = choose|p: int| 0 <= p < prev.len() && prev[p] == i;
                    assert(cur[p] == i);
                }
                if cur.contains(i) {
                    let p = choose|p: int| 0 <= p < cur.len() && cur[p] == i;
                    assert(p < prev.len());
                    assert(prev[p] == i);
                }
            } else {
                if list_requests(lists.last(), id) {
                    assert(cur[cur.len() - 1] == i);
                }
                if cur.contains(i) {
                    let p = choose|p: int| 0 <= p < cur.len() && cur[p] == i;
                    assert(p == cur.len() - 1);
                }
            }
        }
    }
}

/// Appending one more list appends at most one destination: the new list's
/// index, exactly when that list requests the identifier.
pub proof fn lemma_dests_of_push(lists: Seq<Seq<Seq<u8>>>, list: Seq<Seq<u8>>, id: Seq<u8>)
    ensures
        dests_of(lists.push(list), id) == dests_of(lists, id)
            + if list_requests(list, id) {
                seq![lists.len() as int]
            } else {
                Seq::<int>::empty()
            },
{
    assert(lists.push(list).drop_last() =~= lists);
    assert(lists.push(list).last() == list);
}

/// Growing the last list by one line leaves every destination set unchanged,
/// except that a non-blank line newly requested adds the last list's index.
pub proof fn lemma_dests_of_grow_last(
    done: Seq<Seq<Seq<u8>>>,
    partial: Seq<Seq<u8>>,
    line: Seq<u8>,
    id: Seq<u8>,
)
    ensures
        list_requests(partial.push(line), id)
            <==> (list_requests(partial, id) || (id == line && line.len() > 0)),
        !(id == line && line.len() > 0 && !list_requests(partial, id))
            ==> dests_of(done.push(partial.push(line)), id)
                == dests_of(done.push(partial), id),
        (id == line && line.len() > 0 && !list_requests(partial, id))
            ==> dests_of(done.push(partial.push(line)), id)
                == dests_of(done.push(partial), id) + seq![done.len() as int],
{
    lemma_dests_of_push(done, partial, id);
    lemma_dests_of_push(done, partial.push(line), id);
    assert(dests_of(done.push(partial), id) + Seq::<int>::empty()
        =~= dests_of(done.push(partial), id));
    assert(dests_of(done.push(partial.push(line)), id) + Seq::<int>::empty()
        =~= dests_of(done.push(partial.push(line)), id));
    if !(id == line && line.len() > 0 && !list_requests(partial, id)) {
        assert(dests_of(done.push(partial.push(line)), id)
            =~= dests_of(done.push(partial), id));
    }
}

/// Every list with its blank lines dropped.
pub open spec fn strip_blanks(lists: Seq<Seq<Seq<u8>>>) -> Seq<Seq<Seq<u8>>> {
    lists.map_values(|list: Seq<Seq<u8>>| nonblank(list))
}

/// A list all of whose lines are non-blank is left unchanged by `nonblank`.
proof fn lemma_nonblank_all(list: Seq<Seq<u8>>)
    requires
        forall|p: int| 0 <= p < list.len() ==> is_nonblank(#[trigger] list[p]),
    ensures
        nonblank(list) == list,
    decreases list.len(),
{
    if list.len() == 0 {
        assert(nonblank(list).len() == 0);
        assert(nonblank(list) =~= list);
    } else {
        let dl = list.drop_last();
        lemma_nonblank_all(dl);
        dl.lemma_filter_push(list.last(), |l: Seq<u8>| is_nonblank(l));
        assert(dl.push(list.last()) =~= list);
    }
}

pub proof fn lemma_nonblank_idempotent(list: Seq<Seq<u8>>)
    ensures
        nonblank(nonblank(list)) == nonblank(list),
{
    assert forall|p: int| 0 <= p < nonblank(list).len()
        implies is_nonblank(#[trigger] nonblank(list)[p]) by {
    }
    lemma_nonblank_all(nonblank(list));
}

/// Blank lines in the name lists are ignored entirely: dropping every blank
/// line changes no identifier's destination set, no expected count, and not
/// whether the configuration is valid.
pub proof fn lemma_blank_lines_ignored(lists: Seq<Seq<Seq<u8>>>, id: Seq<u8>)
    ensures
        dests_of(strip_blanks(lists), id) == dests_of(lists, id),
        expected_counts(strip_blanks(lists)) == expected_counts(lists),
        lists_valid(strip_blanks(lists)) <==> lists_valid(lists),
    decreases lists.len(),
{
    let stripped = strip_blanks(lists);
    if lists.len() > 0 {
        lemma_blank_lines_ignored(lists.drop_last(), id);
        assert(stripped.drop_last() =~= strip_blanks(lists.drop_last()));
        assert(stripped.last() == nonblank(lists.last()));
        lemma_nonblank_contains(lists.last(), id);
        lemma_nonblank_contains(nonblank(lists.last()), id);
        lemma_nonblank_idempotent(lists.last());
        assert(list_requests(stripped.last(), id) <==> list_requests(lists.last(), id));
    }
    assert forall|i: int| 0 <= i < lists.len()
        implies nonblank(#[trigger] stripped[i]) == nonblank(#[trigger] lists[i]) by {
        lemma_nonblank_idempotent(lists[i]);
    }
    assert(expected_counts(stripped) =~= expected_counts(lists));
    assert(stripped.len() == lists.len());
    if lists_valid(lists) {
        assert forall|i: int| 0 <= i < stripped.len()
            implies !has_duplicate(#[trigger] stripped[i]) by {
            lemma_nonblank_idempotent(lists[i]);
            assert(!has_duplicate(lists[i]));
        }
    }
    if lists_valid(stripped) {
        assert forall|i: int| 0 <= i < lists.len()
            implies !has_duplicate(#[trigger] lists[i]) by {
            lemma_nonblank_idempotent(lists[i]);
            assert(!has_duplicate(stripped[i]));
        }
    }
}

/// Pushing a line that is not yet named introduces no duplicate.
pub proof fn lemma_no_duplicate_push(list: Seq<Seq<u8>>, line: Seq<u8>)
    requires
        !has_duplicate(list),
        !nonblank(list).contains(line),
    ensures
        !has_duplicate(list.push(line)),
{
    list.lemma_filter_push(line, |l: Seq<u8>| is_nonblank(l));
    if has_duplicate(list.push(line)) {
        let nb = nonblank(list.push(line));
        let (j, k) = choose|j: int, k: int|
            0 <= j < k < nb.len() && nb[j] == nb[k];
        if is_nonblank(line) {
            if k < nb.len() - 1 {
                assert(nonblank(list)[j] == nonblank(list)[k]);
            } else {
                assert(nonblank(list)[j] == line);
                assert(nonblank(list).contains(line));
            }
        } else {
            assert(nonblank(list)[j] == nonblank(list)[k]);
        }
    }
}

/// The lines of one name-list file as mathematical sequences.
pub open spec fn lines_view(list: Vec<Vec<u8>>) -> Seq<Seq<u8>> {
    Seq::new(list@.len(), |j: int| list@[j]@)
}

/// All name-list files as mathematical sequences.
pub open spec fn lists_view(lists: Vec<Vec<Vec<u8>>>) -> Seq<Seq<Seq<u8>>> {
    Seq::new(lists@.len(), |i: int| lines_view(lists@[i]))
}

/// One identifier with the destinations that request it, kept ascending.
pub struct NameEntry {
    pub name: Vec<u8>,
    pub dests: Vec<usize>,
}

/// The same identifier appeared on two non-blank lines of one list file.
#[derive(Debug)]
pub struct DuplicateName {
    pub list_index: usize,
    pub name: Vec<u8>,
}

/// The name index, immutable once constructed. The ghost `lists` field holds
/// the name-list lines it was built from; the executable fields are proved to
/// represent exactly that configuration.
pub struct NameIndex {
    pub entries: Vec<NameEntry>,
    pub expected: Vec<usize>,
    pub lists: Ghost<Seq<Seq<Seq<u8>>>>,
}

/// An entry carries a non-blank name and exactly the destinations of its name.
pub open spec fn entry_ok(e: NameEntry, lists: Seq<Seq<Seq<u8>>>) -> bool {
    &&& e.name@.len() > 0
    &&& e.dests@.len() > 0
    &&& e.dests@.map_values(|d: usize| d as int) == dests_of(lists, e.name@)
}

pub open spec fn has_entry(entries: Seq<NameEntry>, id: Seq<u8>) -> bool {
    exists|k: int| 0 <= k < entries.len() && entries[k].name@ == id
}

/// The entries represent the configuration: each entry is correct, names are
/// not repeated, and every non-blank line of every list has its entry.
pub open spec fn entries_rep(entries: Seq<NameEntry>, lists: Seq<Seq<Seq<u8>>>) -> bool {
    &&& forall|k: int| 0 <= k < entries.len() ==> entry_ok(#[trigger] entries[k], lists)
    &&& forall|p: int, q: int|
        0 <= p < q < entries.len() ==> entries[p].name@ != entries[q].name@
    &&& forall|t: int, j: int|
        0 <= t < lists.len() && 0 <= j < lists[t].len() && lists[t][j].len() > 0
            ==> has_entry(entries, #[trigger] lists[t][j])
}

impl NameIndex {
    /// The number of destinations (one per name-list file).
    pub open spec fn num_dests(self) -> int {
        self.lists@.len() as int
    }

    /// Well-formedness: the executable data represents the ghost configuration.
    pub open spec fn wf(self) -> bool {
        &&& self.expected@.len() == self.lists@.len()
        &&& forall|i: int| 0 <= i < self.expected@.len()
            ==> (#[trigger] self.expected@[i]) as int == nonblank(self.lists@[i]).len()
        &&& lists_valid(self.lists@)
        &&& entries_rep(self.entries@, self.lists@)
    }

    /// The number of destinations, also the number of output targets owed.
    pub fn num_destinations(&self) -> (n: usize)
        requires
            self.wf(),
        ensures
            n as int == self.num_dests(),
    {
        self.expected.len()
    }

    /// The destinations whose lists request `id`, ascending; empty when none.
    pub fn lookup(&self, id: &Vec<u8>) -> (r: Vec<usize>)
        requires
            self.wf(),
        ensures
            r@.map_values(|d: usize| d as int) == dests_of(self.lists@, id@),
    {
        let mut k: usize = 0;
        while k < self.entries.len()
            invariant
                self.wf(),
                k <= self.entries@.len(),
                forall|p: int| 0 <= p < k ==> (#[trigger] self.entries@[p]).name@ != id@,
            decreases self.entries@.len() - k,
        {
            let e = &self.entries[k];
            if bytes_eq(&e.name, id) {
                return copy_usizes(&e.dests);
            }
            k = k + 1;
        }
        proof {
            lemma_dests_of(self.lists@, id@);
            if dests_of(self.lists@, id@).len() > 0 {
                let d = dests_of(self.lists@, id@)[0];
                assert(dests_of(self.lists@, id@).contains(d));
                assert(list_requests(self.lists@[d], id@));
                let j = choose|j: int| 0 <= j < self.lists@[d].len() && self.lists@[d][j] == id@;
                assert(has_entry(self.entries@, self.lists@[d][j]));
            }
            assert(Seq::<usize>::empty().map_values(|d: usize| d as int)
                =~= dests_of(self.lists@, id@));
        }
        Vec::new()
    }
}

/// Byte-for-byte equality of two buffers.
pub fn bytes_eq(a: &Vec<u8>, b: &Vec<u8>) -> (r: bool)
    ensures
        r == (a@ == b@),
{
    if a.len() != b.len() {
        return false;
    }
    let mut k: usize = 0;
    while k < a.len()
        invariant
            a@.len() == b@.len(),
            k <= a@.len(),
            forall|p: int| 0 <= p < k ==> a@[p] == b@[p],
        decreases a@.len() - k,
    {
        if a[k] != b[k] {
            return false;
        }
        k = k + 1;
    }
    proof {
        assert(a@ =~= b@);
    }
    true
}

pub(crate) fn copy_usizes(v: &Vec<usize>) -> (r: Vec<usize>)
    ensures
        r@ == v@,
{
    let mut r: Vec<usize> = Vec::new();
    let mut k: usize = 0;
    while k < v.len()
        invariant
            k <= v@.len(),
            r@ =~= v@.take(k as int),
        decreases v@.len() - k,
    {
        r.push(v[k]);
        k = k + 1;
    }
    proof {
        assert(v@.take(v@.len() as int) =~= v@);
    }
    r
}

fn copy_bytes(v: &Vec<u8>) -> (r: Vec<u8>)
    ensures
        r@ == v@,
{
    let mut r: Vec<u8> = Vec::new();
    let mut k: usize = 0;
    while k < v.len()
        invariant
            k <= v@.len(),
            r@ =~= v@.take(k as int),
        decreases v@.len() - k,
    {
        r.push(v[k]);
        k = k + 1;
    }
    proof {
        assert(v@.take(v@.len() as int) =~= v@);
    }
    r
}

fn find_entry(entries: &Vec<NameEntry>, id: &Vec<u8>) -> (r: Option<usize>)
    ensures
        match r {
            Some(k) => k < entries@.len() && entries@[k as int].name@ == id@,
            None => forall|p: int|
                0 <= p < entries@.len() ==> (#[trigger] entries@[p]).name@ != id@,
        },
{
    let mut k: usize = 0;
    while k < entries.len()
        invariant
            k <= entries@.len(),
            forall|p: int| 0 <= p < k ==> (#[trigger] entries@[p]).name@ != id@,
        decreases entries@.len() - k,
    {
        let e = &entries[k];
        if bytes_eq(&e.name, id) {
            return Some(k);
        }
        k = k + 1;
    }
    None
}

/// Opening a fresh (still empty) list changes no destination set and adds no
/// line, so the representation carries over.
proof fn lemma_rep_open_list(entries: Seq<NameEntry>, done: Seq<Seq<Seq<u8>>>)
    requires
        entries_rep(entries, done),
    ensures
        entries_rep(entries, done.push(Seq::<Seq<u8>>::empty())),
{
    let model = done.push(Seq::<Seq<u8>>::empty());
    assert forall|k: int| 0 <= k < entries.len() implies entry_ok(#[trigger] entries[k], model) by {
        lemma_dests_of_push(done, Seq::empty(), entries[k].name@);
        assert(!Seq::<Seq<u8>>::empty().contains(entries[k].name@));
        assert(dests_of(model, entries[k].name@)
            =~= dests_of(done, entries[k].name@));
    }
    assert forall|t: int, j: int|
        0 <= t < model.len() && 0 <= j < model[t].len() && model[t][j].len() > 0
        implies has_entry(entries, #[trigger] model[t][j]) by {
        assert(t < done.len());
        assert(model[t] == done[t]);
    }
}

/// Builds the name index from the lines of each name-list file, in order.
/// Succeeds exactly when no list file names the same identifier on two of its
/// non-blank lines; blank lines are ignored entirely. On failure, the error
/// names a duplicated identifier and the list it occurs twice in.
#[verifier::rlimit(50)]
pub fn generate_name_index(lists: &Vec<Vec<Vec<u8>>>) -> (r: Result<NameIndex, DuplicateName>)
    ensures
        r is Ok <==> lists_valid(lists_view(*lists)),
        r is Ok ==> r->Ok_0.wf() && r->Ok_0.lists@ == lists_view(*lists),
        r is Err ==> r->Err_0.list_index < lists@.len(),
        r is Err ==> r->Err_0.name@.len() > 0,
        r is Err ==> duplicated_in(
            lists_view(*lists)[r->Err_0.list_index as int],
            r->Err_0.name@,
        ),
{
    let ghost all = lists_view(*lists);
    let mut entries: Vec<NameEntry> = Vec::new();
    let mut expected: Vec<usize> = Vec::new();
    let mut i: usize = 0;
    while i < lists.len()
        invariant
            i <= lists@.len(),
            all == lists_view(*lists),
            expected@.len() == i,
            forall|t: int| 0 <= t < i
                ==> (#[trigger] expected@[t]) as int == nonblank(all[t]).len(),
            forall|t: int| 0 <= t < i ==> !has_duplicate(#[trigger] all[t]),
            entries_rep(entries@, all.take(i as int)),
        decreases lists@.len() - i,
    {
        let list = &lists[i];
        let ghost full = lines_view(*list);
        proof {
            assert(full == all[i as int]);
            assert(full.take(0) =~= Seq::<Seq<u8>>::empty());
            lemma_rep_open_list(entries@, all.take(i as int));
        }
        let mut count: usize = 0;
        let mut j: usize = 0;
        while j < list.len()
            invariant
                i < lists@.len(),
                j <= list@.len(),
                all == lists_view(*lists),
                full == lines_view(*list),
                full == all[i as int],
                full.len() == list@.len(),
                count as int == nonblank(full.take(j as int)).len(),
                count <= j,
                !has_duplicate(full.take(j as int)),
                entries_rep(entries@, all.take(i as int).push(full.take(j as int))),
            decreases list@.len() - j,
        {
            let ghost done = all.take(i as int);
            let ghost partial = full.take(j as int);
            let ghost model0 = done.push(partial);
            let line = &list[j];
            proof {
                assert(line@ == full[j as int]);
                assert(full.take(j as int + 1) =~= partial.push(line@));
            }
            let ghost model1 = done.push(partial.push(line@));
            if line.len() > 0 {
                match find_entry(&entries, line) {
                    Some(k) => {
                        proof {
                            assert(entry_ok(entries@[k as int], model0));
                        }
                        let e0 = &entries[k];
                        let dn = e0.dests.len();
                        let lastd = e0.dests[dn - 1];
                        let ghost es0 = entries@;
                        let ghost dmap = entries@[k as int].dests@.map_values(
                            |d: usize| d as int,
                        );
                        proof {
                            lemma_dests_of(model0, line@);
                            assert(model0[i as int] == partial);
                            assert(dmap.len() == dn);
                            assert(dmap[dn as int - 1] == lastd as int);
                            assert(dmap.contains(lastd as int));
                        }
                        if lastd == i {
                            // The identifier is already requested by the list
                            // being read: a literal duplicate line.
                            proof {
                                assert(list_requests(partial, line@));
                                lemma_nonblank_contains(partial, line@);
                                let w = choose|w: int|
                                    0 <= w < nonblank(partial).len()
                                        && nonblank(partial)[w] == line@;
                                partial.lemma_filter_push(line@, |l: Seq<u8>| is_nonblank(l));
                                let nbp = nonblank(partial.push(line@));
                                assert(nbp[w] == line@);
                                assert(nbp[nbp.len() - 1] == line@);
                                let pred = |l: Seq<u8>| is_nonblank(l);
                                Seq::filter_distributes_over_add(
                                    full.take(j as int + 1),
                                    full.skip(j as int + 1),
                                    pred,
                                );
                                assert(full.take(j as int + 1) + full.skip(j as int + 1)
                                    =~= full);
                                let nbf = nonblank(full);
                                assert(nbf[w] == line@);
                                assert(nbf[nbp.len() - 1] == line@);
                                assert(0 <= w < nbp.len() - 1 < nbf.len());
                                assert(lists_view(*lists)[i as int] == full);
                                assert(duplicated_in(full, line@));
                                assert(has_duplicate(all[i as int]));
                                assert(!lists_valid(all));
                            }
                            let dup = DuplicateName { list_index: i, name: copy_bytes(line) };
                            proof {
                                assert(dup.name@ == line@);
                                assert(duplicated_in(lists_view(*lists)[i as int], line@));
                                assert(!lists_valid(lists_view(*lists)));
                            }
                            return Err(dup);
                        }
                        proof {
                            // `i` cannot already be a destination of this name:
                            // destinations are ascending and the last is not `i`.
                            assert forall|p: int| 0 <= p < dmap.len()
                                implies dmap[p] <= lastd as int by {
                                if p < dmap.len() - 1 {
                                    assert(dmap[p] < dmap[dmap.len() - 1]);
                                }
                            }
                            assert(lastd < i) by {
                                assert(dmap[dn as int - 1] < model0.len());
                            }
                            assert(!dmap.contains(i as int));
                            assert(dests_of(model0, line@).contains(i as int)
                                <==> list_requests(partial, line@));
                            assert(!list_requests(partial, line@));
                            lemma_nonblank_contains(partial, line@);
                            lemma_no_duplicate_push(partial, line@);
                            partial.lemma_filter_push(line@, |l: Seq<u8>| is_nonblank(l));
                        }
                        let e = &mut entries[k];
                        e.dests.push(i);
                        proof {
                            let es1 = entries@;
                            assert(es1.len() == es0.len());
                            assert(es1[k as int].name@ == line@);
                            assert(es1[k as int].dests@ == es0[k as int].dests@.push(i));
                            assert(forall|p: int|
                                0 <= p < es1.len() && p != k ==> es1[p] == es0[p]);
                            es0[k as int].dests@.lemma_push_map_commute(
                                |d: usize| d as int,
                                i,
                            );
                            lemma_dests_of_grow_last(done, partial, line@, line@);
                            assert(dmap + seq![i as int] =~= dmap.push(i as int));
                            assert(entry_ok(es1[k as int], model1));
                            assert forall|p: int| 0 <= p < es1.len()
                                implies entry_ok(#[trigger] es1[p], model1) by {
                                if p != k {
                                    assert(es0[p].name@ != line@);
                                    lemma_dests_of_grow_last(done, partial, line@, es0[p].name@);
                                }
                            }
                            assert forall|t: int, j2: int|
                                0 <= t < model1.len() && 0 <= j2 < model1[t].len()
                                    && model1[t][j2].len() > 0
                                implies has_entry(es1, #[trigger] model1[t][j2]) by {
                                if t < model0.len() - 1 || j2 < partial.len() {
                                    assert(model1[t][j2] == model0[t][j2]);
                                    let k0 = choose|k0: int|
                                        0 <= k0 < es0.len() && es0[k0].name@ == model0[t][j2];
                                    assert(es1[k0].name@ == model0[t][j2]);
                                } else {
                                    assert(model1[t][j2] == line@);
                                    assert(es1[k as int].name@ == line@);
                                }
                            }
                        }
                        count = count + 1;
                    }
                    None => {
                        let ghost es0 = entries@;
                        proof {
                            lemma_dests_of(model0, line@);
                            if dests_of(model0, line@).len() > 0 {
                                let d = dests_of(model0, line@)[0];
                                assert(dests_of(model0, line@).contains(d));
                                assert(list_requests(model0[d], line@));
                                let w = choose|w: int|
                                    0 <= w < model0[d].len() && model0[d][w] == line@;
                                assert(has_entry(es0, model0[d][w]));
                            }
                            assert(dests_of(model0, line@) =~= Seq::<int>::empty());
                            assert(!dests_of(model0, line@).contains(i as int));
                            assert(!list_requests(partial, line@));
                            lemma_nonblank_contains(partial, line@);
                            lemma_no_duplicate_push(partial, line@);
                            partial.lemma_filter_push(line@, |l: Seq<u8>| is_nonblank(l));
                        }
                        let mut ds: Vec<usize> = Vec::new();
                        ds.push(i);
                        entries.push(NameEntry { name: copy_bytes(line), dests: ds });
                        proof {
                            let es1 = entries@;
                            let kn = es0.len() as int;
                            assert(es1.len() == es0.len() + 1);
                            assert(es1[kn].name@ == line@);
                            assert(es1[kn].dests@ =~= seq![i]);
                            assert(forall|p: int| 0 <= p < es0.len() ==> es1[p] == es0[p]);
                            lemma_dests_of_grow_last(done, partial, line@, line@);
                            assert(Seq::<int>::empty() + seq![i as int] =~= seq![i as int]);
                            assert(seq![i].map_values(|d: usize| d as int) =~= seq![i as int]);
                            assert(entry_ok(es1[kn], model1));
                            assert forall|p: int| 0 <= p < es1.len()
                                implies entry_ok(#[trigger] es1[p], model1) by {
                                if p != kn {
                                    assert(es0[p].name@ != line@);
                                    lemma_dests_of_grow_last(done, partial, line@, es0[p].name@);
                                }
                            }
                            assert forall|p: int, q: int| 0 <= p < q < es1.len()
                                implies es1[p].name@ != es1[q].name@ by {
                                if q == kn {
                                    assert(es0[p].name@ != line@);
                                }
                            }
                            assert forall|t: int, j2: int|
                                0 <= t < model1.len() && 0 <= j2 < model1[t].len()
                                    && model1[t][j2].len() > 0
                                implies has_entry(es1, #[trigger] model1[t][j2]) by {
                                if t < model0.len() - 1 || j2 < partial.len() {
                                    assert(model1[t][j2] == model0[t][j2]);
                                    let k0 = choose|k0: int|
                                        0 <= k0 < es0.len() && es0[k0].name@ == model0[t][j2];
                                    assert(es1[k0].name@ == model0[t][j2]);
                                } else {
                                    assert(model1[t][j2] == line@);
                                    assert(es1[kn].name@ == line@);
                                }
                            }
                        }
                        count = count + 1;
                    }
                }
            } else {
                proof {
                    partial.lemma_filter_push(line@, |l: Seq<u8>| is_nonblank(l));
                    assert forall|kk: int| 0 <= kk < entries@.len()
                        implies entry_ok(#[trigger] entries@[kk], model1) by {
                        lemma_dests_of_grow_last(done, partial, line@, entries@[kk].name@);
                    }
                    assert forall|t: int, j2: int|
                        0 <= t < model1.len() && 0 <= j2 < model1[t].len()
                            && model1[t][j2].len() > 0
                        implies has_entry(entries@, #[trigger] model1[t][j2]) by {
                        if t < model0.len() - 1 {
                            assert(model1[t] == model0[t]);
                        } else {
                            assert(j2 < partial.len());
                            assert(model1[t][j2] == model0[t][j2]);
                        }
                    }
                }
            }
            j = j + 1;
        }
        proof {
            assert(full.take(list@.len() as int) =~= full);
            assert(all.take(i as int).push(full) =~= all.take(i as int + 1));
        }
        expected.push(count);
        i = i + 1;
    }
    proof {
        assert(all.take(lists@.len() as int) =~= all);
    }
    Ok(NameIndex { entries, expected, lists: Ghost(all) })
}

} // verus!
