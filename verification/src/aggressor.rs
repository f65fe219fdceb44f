//! Tallies of the tasks that ran in a victim's place.

use vstd::prelude::*;

verus! {

/// How many tasks the report names.
pub const TOP_AGGRESSORS: usize = 20;

/// How often a task took a core from a victim, and for how long in all.
pub struct AggressorSummaryJson {
    pub comm: String,
    pub count: u32,
    pub total_ns: u64,
}

impl AggressorSummaryJson {
    /// The count and the total time.
    pub open spec fn tally(self) -> (u32, u64) {
        (self.count, self.total_ns)
    }
}

/// Some entry carries this name.
pub open spec fn listed(entries: Seq<AggressorSummaryJson>, comm: Seq<char>) -> bool {
    exists|i: int| 0 <= i < entries.len() && #[trigger] entries[i].comm@ == comm
}

/// No two entries carry the same name.
pub open spec fn distinct(entries: Seq<AggressorSummaryJson>) -> bool {
    forall|i: int, j: int|
        0 <= i < j < entries.len() ==> #[trigger] entries[i].comm@ != #[trigger] entries[j].comm@
}

/// The entries as a map from names to tallies.
pub open spec fn tally_map(entries: Seq<AggressorSummaryJson>) -> Map<Seq<char>, (u32, u64)> {
    Map::new(
        |comm: Seq<char>| listed(entries, comm),
        |comm: Seq<char>|
            entries[choose|i: int|
                0 <= i < entries.len() && #[trigger] entries[i].comm@ == comm].tally(),
    )
}

/// The tally of a name; zero for a name that has none yet.
pub open spec fn tally_of(tallies: Map<Seq<char>, (u32, u64)>, comm: Seq<char>) -> (u32, u64) {
    if tallies.contains_key(comm) {
        tallies[comm]
    } else {
        (0, 0)
    }
}

/// `count` more events of `total_ns` in all still fit in the tally of a name.
pub open spec fn tally_fits(
    tallies: Map<Seq<char>, (u32, u64)>,
    comm: Seq<char>,
    count: u32,
    total_ns: u64,
) -> bool {
    &&& tally_of(tallies, comm).0 + count <= u32::MAX
    &&& tally_of(tallies, comm).1 + total_ns <= u64::MAX
}

/// The tallies after `count` more events of `total_ns` in all.
pub open spec fn tally_added(
    tallies: Map<Seq<char>, (u32, u64)>,
    comm: Seq<char>,
    count: u32,
    total_ns: u64,
) -> Map<Seq<char>, (u32, u64)> {
    let before = tally_of(tallies, comm);
    tallies.insert(comm, ((before.0 + count) as u32, (before.1 + total_ns) as u64))
}

/// The tallies of two tables, added up name by name, fit in one.
pub open spec fn mergeable(
    a: Map<Seq<char>, (u32, u64)>,
    b: Map<Seq<char>, (u32, u64)>,
) -> bool {
    forall|comm: Seq<char>|
        b.contains_key(comm) ==> #[trigger] tally_fits(a, comm, b[comm].0, b[comm].1)
}

/// The tallies of two tables, added up name by name.
pub open spec fn merged(
    a: Map<Seq<char>, (u32, u64)>,
    b: Map<Seq<char>, (u32, u64)>,
) -> Map<Seq<char>, (u32, u64)> {
    Map::new(
        |comm: Seq<char>| a.contains_key(comm) || b.contains_key(comm),
        |comm: Seq<char>|
            (
                (tally_of(a, comm).0 + tally_of(b, comm).0) as u32,
                (tally_of(a, comm).1 + tally_of(b, comm).1) as u64,
            ),
    )
}

/// With distinct names, each entry is what the map holds under its name.
pub proof fn lemma_tally_map_entry(entries: Seq<AggressorSummaryJson>, i: int)
    requires
        distinct(entries),
        0 <= i < entries.len(),
    ensures
        tally_map(entries).contains_key(entries[i].comm@),
        tally_map(entries)[entries[i].comm@] == entries[i].tally(),
{
    let comm = entries[i].comm@;
    assert(listed(entries, comm));
    let k = choose|k: int| 0 <= k < entries.len() && #[trigger] entries[k].comm@ == comm;
    assert(k == i);
}

/// The map holds as many names as there are entries.
pub proof fn lemma_tally_map_len(entries: Seq<AggressorSummaryJson>)
    requires
        distinct(entries),
    ensures
        tally_map(entries).dom().finite(),
        tally_map(entries).dom().len() == entries.len(),
{
    let names = entries.map_values(|e: AggressorSummaryJson| e.comm@);
    assert(names.no_duplicates());
    names.unique_seq_to_set();
    assert forall|comm: Seq<char>| names.to_set().contains(comm) == tally_map(
        entries,
    ).dom().contains(comm) by {
        if names.contains(comm) {
            let i = choose|i: int| 0 <= i < names.len() && names[i] == comm;
            assert(entries[i].comm@ == comm);
        }
        if listed(entries, comm) {
            let i = choose|i: int| 0 <= i < entries.len() && #[trigger] entries[i].comm@ == comm;
            assert(names[i] == comm);
        }
    }
    assert(names.to_set() =~= tally_map(entries).dom());
}

/// Tallies by task name, in the order in which the names were first seen.
pub struct AggressorTable {
    entries: Vec<AggressorSummaryJson>,
}

impl View for AggressorTable {
    type V = Map<Seq<char>, (u32, u64)>;

    closed spec fn view(&self) -> Map<Seq<char>, (u32, u64)> {
        tally_map(self.entries@)
    }
}

impl AggressorTable {
    /// No name occurs twice.
    pub closed spec fn wf(self) -> bool {
        distinct(self.entries@)
    }

    /// A table holds finitely many names.
    pub proof fn lemma_finite(self)
        requires
            self.wf(),
        ensures
            self@.dom().finite(),
    {
        lemma_tally_map_len(self.entries@);
    }

    /// A table without tallies.
    pub fn new() -> (table: AggressorTable)
        ensures
            table.wf(),
            table@ == Map::<Seq<char>, (u32, u64)>::empty(),
    {
        let table = AggressorTable { entries: Vec::new() };
        assert(table@ =~= Map::<Seq<char>, (u32, u64)>::empty());
        table
    }

    /// The tallies, one entry for each name.
    pub fn entries(&self) -> (entries: &Vec<AggressorSummaryJson>)
        requires
            self.wf(),
        ensures
            distinct(entries@),
            tally_map(entries@) == self@,
    {
        &self.entries
    }

    /// Hands out the tallies, one entry for each name.
    pub fn into_entries(self) -> (entries: Vec<AggressorSummaryJson>)
        requires
            self.wf(),
        ensures
            distinct(entries@),
            tally_map(entries@) == self@,
    {
        self.entries
    }

    /// Where the entry of a name is.
    fn position(&self, comm: &String) -> (found: Option<usize>)
        ensures
            found matches Some(i) ==> i < self.entries@.len() && self.entries@[i as int].comm@
                == comm@,
            found is None ==> !listed(self.entries@, comm@),
    {
        let mut i: usize = 0;
        while i < self.entries.len()
            invariant
                i <= self.entries@.len(),
                forall|j: int| 0 <= j < i ==> #[trigger] self.entries@[j].comm@ != comm@,
            decreases self.entries@.len() - i,
        {
            if self.entries[i].comm == *comm {
                return Some(i);
            }
            i += 1;
        }
        None
    }

    /// Whether `count` more events of `total_ns` in all fit in the tally of a name.
    pub fn fits(&self, comm: &str, count: u32, total_ns: u64) -> (fits: bool)
        requires
            self.wf(),
        ensures
            fits == tally_fits(self@, comm@, count, total_ns),
    {
        match self.position(&comm.to_owned()) {
            Some(i) => {
                proof {
                    lemma_tally_map_entry(self.entries@, i as int);
                }
                count <= u32::MAX - self.entries[i].count && total_ns <= u64::MAX
                    - self.entries[i].total_ns
            },
            None => true,
        }
    }

    /// Whether the tallies of another table fit, name by name.
    fn fits_all(&self, other: &AggressorTable) -> (fits: bool)
        requires
            self.wf(),
            other.wf(),
        ensures
            fits == mergeable(self@, other@),
    {
        let ghost theirs = other.entries@;
        let mut i: usize = 0;
        while i < other.entries.len()
            invariant
                self.wf(),
                other.wf(),
                theirs == other.entries@,
                i <= theirs.len(),
                forall|j: int|
                    0 <= j < i ==> tally_fits(
                        self@,
                        #[trigger] theirs[j].comm@,
                        theirs[j].count,
                        theirs[j].total_ns,
                    ),
            decreases theirs.len() - i,
        {
            let entry = &other.entries[i];
            proof {
                lemma_tally_map_entry(theirs, i as int);
            }
            if !self.fits(entry.comm.as_str(), entry.count, entry.total_ns) {
                assert(!tally_fits(self@, entry.comm@, other@[entry.comm@].0, other@[entry.comm@].1));
                return false;
            }
            i += 1;
        }
        assert forall|c: Seq<char>| other@.contains_key(c) implies #[trigger] tally_fits(
            self@,
            c,
            other@[c].0,
            other@[c].1,
        ) by {
            let j = choose|j: int| 0 <= j < theirs.len() && #[trigger] theirs[j].comm@ == c;
            lemma_tally_map_entry(theirs, j);
        }
        true
    }

    /// Adds the tallies of another table. If one would go out of range, the table stays as it is.
    pub fn merge(&mut self, other: &AggressorTable) -> (fits: bool)
        requires
            old(self).wf(),
            other.wf(),
        ensures
            final(self).wf(),
            fits == mergeable(old(self)@, other@),
            fits ==> final(self)@ == merged(old(self)@, other@),
            !fits ==> final(self)@ == old(self)@,
    {
        if !self.fits_all(other) {
            return false;
        }
        let ghost before = self@;
        let ghost theirs = other.entries@;
        let mut i: usize = 0;
        while i < other.entries.len()
            invariant
                self.wf(),
                other.wf(),
                before == old(self)@,
                theirs == other.entries@,
                i <= theirs.len(),
                mergeable(before, other@),
                forall|c: Seq<char>| #[trigger]
                    self@.contains_key(c) <==> before.contains_key(c) || listed(
                        theirs.take(i as int),
                        c,
                    ),
                forall|c: Seq<char>|
                    !listed(theirs.take(i as int), c) ==> #[trigger] tally_of(self@, c) == tally_of(
                        before,
                        c,
                    ),
                forall|j: int|
                    0 <= j < i ==> self@[#[trigger] theirs[j].comm@] == (
                        (tally_of(before, theirs[j].comm@).0 + theirs[j].count) as u32,
                        (tally_of(before, theirs[j].comm@).1 + theirs[j].total_ns) as u64,
                    ),
            decreases theirs.len() - i,
        {
            let entry = &other.entries[i];
            let ghost comm = entry.comm@;
            let ghost now = self@;
            proof {
                lemma_tally_map_entry(theirs, i as int);
                assert(!listed(theirs.take(i as int), comm));
                assert(tally_of(now, comm) == tally_of(before, comm));
                assert(other@.contains_key(comm));
                assert(other@[comm] == (entry.count, entry.total_ns));
                assert(tally_fits(before, comm, other@[comm].0, other@[comm].1));
            }
            self.add(entry.comm.as_str(), entry.count, entry.total_ns);
            proof {
                let seen = theirs.take(i as int);
                let next = theirs.take(i + 1);
                assert forall|c: Seq<char>| #[trigger] listed(next, c) == (listed(seen, c) || c
                    == comm) by {
                    if listed(seen, c) {
                        let k = choose|k: int|
                            0 <= k < seen.len() && #[trigger] seen[k].comm@ == c;
                        assert(next[k].comm@ == c);
                    }
                    if c == comm {
                        assert(next[i as int].comm@ == c);
                    }
                    if listed(next, c) && c != comm {
                        let k = choose|k: int|
                            0 <= k < next.len() && #[trigger] next[k].comm@ == c;
                        assert(seen[k].comm@ == c);
                    }
                }
                assert forall|c: Seq<char>| !listed(next, c) implies #[trigger] tally_of(self@, c)
                    == tally_of(before, c) by {
                    assert(!listed(seen, c) && c != comm);
                    assert(tally_of(now, c) == tally_of(before, c));
                }
                assert forall|j: int| 0 <= j < i + 1 implies self@[#[trigger] theirs[j].comm@] == (
                    (tally_of(before, theirs[j].comm@).0 + theirs[j].count) as u32,
                    (tally_of(before, theirs[j].comm@).1 + theirs[j].total_ns) as u64,
                ) by {
                    if j < i {
                        assert(theirs[j].comm@ != comm);
                        assert(self@[theirs[j].comm@] == now[theirs[j].comm@]);
                    }
                }
            }
            i += 1;
        }
        proof {
            assert(theirs.take(theirs.len() as int) =~= theirs);
            assert forall|c: Seq<char>| #[trigger] self@.contains_key(c) implies self@[c]
                == merged(before, other@)[c] by {
                if listed(theirs, c) {
                    let j = choose|j: int|
                        0 <= j < theirs.len() && #[trigger] theirs[j].comm@ == c;
                    lemma_tally_map_entry(theirs, j);
                } else {
                    assert(tally_of(self@, c) == tally_of(before, c));
                }
            }
            assert(self@ =~= merged(before, other@));
        }
        true
    }

    /// Counts `count` more events of `total_ns` in all under a name.
    pub fn add(&mut self, comm: &str, count: u32, total_ns: u64)
        requires
            old(self).wf(),
            tally_fits(old(self)@, comm@, count, total_ns),
        ensures
            final(self).wf(),
            final(self)@ == tally_added(old(self)@, comm@, count, total_ns),
    {
        let key = comm.to_owned();
        let found = self.position(&key);
        let ghost before = self.entries@;
        match found {
            Some(i) => {
                proof {
                    lemma_tally_map_entry(before, i as int);
                }
                self.entries[i].count += count;
                self.entries[i].total_ns += total_ns;
                proof {
                    let after = self.entries@;
                    assert(forall|j: int|
                        0 <= j < after.len() ==> #[trigger] after[j].comm@ == before[j].comm@);
                    assert forall|c: Seq<char>| #[trigger] listed(after, c) == listed(
                        before,
                        c,
                    ) by {
                        if listed(before, c) {
                            let j = choose|j: int|
                                0 <= j < before.len() && #[trigger] before[j].comm@ == c;
                            assert(after[j].comm@ == c);
                        }
                    }
                    assert forall|c: Seq<char>| listed(after, c) implies #[trigger] tally_map(
                        after,
                    )[c] == tally_added(tally_map(before), comm@, count, total_ns)[c] by {
                        let j = choose|j: int|
                            0 <= j < after.len() && #[trigger] after[j].comm@ == c;
                        lemma_tally_map_entry(after, j);
                        lemma_tally_map_entry(before, j);
                    }
                    assert(tally_map(after) =~= tally_added(
                        tally_map(before),
                        comm@,
                        count,
                        total_ns,
                    ));
                }
            },
            None => {
                self.entries.push(AggressorSummaryJson { comm: key, count, total_ns });
                proof {
                    let after = self.entries@;
                    assert(forall|j: int| 0 <= j < before.len() ==> after[j] == before[j]);
                    assert forall|j: int| 0 <= j < before.len() implies #[trigger] before[j].comm@
                        != comm@ by {
                        assert(listed(before, before[j].comm@));
                    }
                    assert(distinct(after));
                    assert forall|c: Seq<char>| #[trigger] listed(after, c) == (listed(before, c)
                        || c == comm@) by {
                        if listed(before, c) {
                            let j = choose|j: int|
                                0 <= j < before.len() && #[trigger] before[j].comm@ == c;
                            assert(after[j].comm@ == c);
                        }
                        if c == comm@ {
                            assert(after[after.len() - 1].comm@ == c);
                        }
                    }
                    assert forall|c: Seq<char>| listed(after, c) implies #[trigger] tally_map(
                        after,
                    )[c] == tally_added(tally_map(before), comm@, count, total_ns)[c] by {
                        let j = choose|j: int|
                            0 <= j < after.len() && #[trigger] after[j].comm@ == c;
                        lemma_tally_map_entry(after, j);
                        if j < before.len() {
                            lemma_tally_map_entry(before, j);
                        }
                    }
                    assert(tally_map(after) =~= tally_added(
                        tally_map(before),
                        comm@,
                        count,
                        total_ns,
                    ));
                }
            },
        }
    }
}

/// The longest totals come first.
pub open spec fn by_total(entries: Seq<AggressorSummaryJson>) -> bool {
    forall|i: int, j: int|
        0 <= i <= j < entries.len() ==> (#[trigger] entries[i]).total_ns >= (
        #[trigger] entries[j]).total_ns
}

/// `top` are the tasks with the longest totals among `tallies`, longest first: as many as the
/// report names, or all. Which of two with equal totals comes first, or is left out, is open.
pub open spec fn is_top(
    top: Seq<AggressorSummaryJson>,
    tallies: Map<Seq<char>, (u32, u64)>,
) -> bool {
    &&& distinct(top)
    &&& by_total(top)
    &&& top.len() == if tallies.dom().len() < TOP_AGGRESSORS {
        tallies.dom().len()
    } else {
        TOP_AGGRESSORS as nat
    }
    &&& forall|i: int|
        0 <= i < top.len() ==> tallies.contains_key((#[trigger] top[i]).comm@)
            && tallies[top[i].comm@] == top[i].tally()
    &&& forall|comm: Seq<char>, i: int|
        tallies.contains_key(comm) && !listed(top, comm) && 0 <= i < top.len() ==> (
        #[trigger] tallies[comm]).1 <= (#[trigger] top[i]).total_ns
}

/// `top` are those of `all` with the longest totals.
#[verifier::opaque]
spec fn is_top_of(top: Seq<AggressorSummaryJson>, all: Seq<AggressorSummaryJson>) -> bool {
    &&& distinct(top)
    &&& by_total(top)
    &&& top.len() == if all.len() < TOP_AGGRESSORS {
        all.len()
    } else {
        TOP_AGGRESSORS as nat
    }
    &&& forall|i: int| 0 <= i < top.len() ==> all.contains(#[trigger] top[i])
    &&& forall|k: int, i: int|
        0 <= k < all.len() && !listed(top, (#[trigger] all[k]).comm@) && 0 <= i < top.len()
            ==> all[k].total_ns <= (#[trigger] top[i]).total_ns
    &&& all.len() <= TOP_AGGRESSORS ==> forall|k: int|
        0 <= k < all.len() ==> listed(top, (#[trigger] all[k]).comm@)
}

/// Taking in one more entry at its place keeps the longest on top.
proof fn lemma_top_step(
    top: Seq<AggressorSummaryJson>,
    all: Seq<AggressorSummaryJson>,
    entry: AggressorSummaryJson,
    p: int,
)
    requires
        is_top_of(top, all),
        distinct(seq![entry] + all),
        0 <= p <= top.len(),
        forall|i: int| 0 <= i < p ==> (#[trigger] top[i]).total_ns >= entry.total_ns,
        forall|i: int| p <= i < top.len() ==> (#[trigger] top[i]).total_ns <= entry.total_ns,
    ensures
        is_top_of(
            if top.len() < TOP_AGGRESSORS {
                top.insert(p, entry)
            } else {
                top.insert(p, entry).take(TOP_AGGRESSORS as int)
            },
            seq![entry] + all,
        ),
{
    reveal(is_top_of);
    let grown = top.insert(p, entry);
    let next = if top.len() < TOP_AGGRESSORS {
        grown
    } else {
        grown.take(TOP_AGGRESSORS as int)
    };
    let more = seq![entry] + all;
    assert forall|k: int| 0 <= k < all.len() implies (#[trigger] all[k]).comm@ != entry.comm@ by {
        assert(more[k + 1] == all[k] && more[0] == entry);
    }
    assert forall|i: int| 0 <= i < top.len() implies (#[trigger] top[i]).comm@ != entry.comm@ by {
        assert(all.contains(top[i]));
    }
    assert forall|i: int| 0 <= i < grown.len() implies #[trigger] grown[i] == (if i < p {
        top[i]
    } else if i == p {
        entry
    } else {
        top[i - 1]
    }) by {}
    assert(distinct(grown)) by {
        assert forall|i: int, j: int| 0 <= i < j < grown.len() implies #[trigger] grown[i].comm@
            != #[trigger] grown[j].comm@ by {
            let a = if i < p { i } else { i - 1 };
            let b = if j < p { j } else { j - 1 };
            if i != p && j != p {
                assert(top[a].comm@ != top[b].comm@);
            }
        }
    }
    assert(by_total(grown)) by {
        assert forall|i: int, j: int| 0 <= i <= j < grown.len() implies (
        #[trigger] grown[i]).total_ns >= (#[trigger] grown[j]).total_ns by {
            let a = if i < p { i } else { i - 1 };
            let b = if j < p { j } else { j - 1 };
            if i != p && j != p {
                assert(top[a].total_ns >= top[b].total_ns);
            }
        }
    }
    assert forall|i: int| 0 <= i < next.len() implies more.contains(#[trigger] next[i]) by {
        assert(next[i] == grown[i]);
        if i == p {
            assert(more[0] == entry);
        } else {
            assert(all.contains(next[i]));
            let k = choose|k: int| 0 <= k < all.len() && all[k] == next[i];
            assert(more[k + 1] == next[i]);
        }
    }
    assert forall|c: Seq<char>| #[trigger] listed(grown, c) == (listed(top, c) || c
        == entry.comm@) by {
        if listed(top, c) {
            let i = choose|i: int| 0 <= i < top.len() && #[trigger] top[i].comm@ == c;
            let g = if i < p { i } else { i + 1 };
            assert(grown[g].comm@ == c);
        }
        if c == entry.comm@ {
            assert(grown[p].comm@ == c);
        }
    }
    assert forall|k: int, i: int|
        0 <= k < more.len() && !listed(next, (#[trigger] more[k]).comm@) && 0 <= i
            < next.len() implies more[k].total_ns <= (#[trigger] next[i]).total_ns by {
        assert(next[i] == grown[i]);
        let c = more[k].comm@;
        if listed(grown, c) {
            let g = choose|g: int| 0 <= g < grown.len() && #[trigger] grown[g].comm@ == c;
            if g < next.len() {
                assert(next[g].comm@ == c);
            }
            assert(grown[i].total_ns >= grown[g].total_ns);
            assert(more.contains(grown[g])) by {
                if g == p {
                    assert(more[0] == entry);
                } else {
                    let a = if g < p { g } else { g - 1 };
                    assert(all.contains(top[a]));
                    let m = choose|m: int| 0 <= m < all.len() && all[m] == top[a];
                    assert(more[m + 1] == grown[g]);
                }
            }
            let m = choose|m: int| 0 <= m < more.len() && more[m] == grown[g];
            if m < k {
                assert(more[m].comm@ != more[k].comm@);
            }
            if k < m {
                assert(more[k].comm@ != more[m].comm@);
            }
        } else {
            assert(k > 0);
            assert(more[k] == all[k - 1]);
            assert(!listed(top, all[k - 1].comm@));
            if i == p {
                assert(top.len() == TOP_AGGRESSORS);
                assert(all[k - 1].total_ns <= top[p].total_ns);
            }
        }
    }
    if more.len() <= TOP_AGGRESSORS {
        assert forall|k: int| 0 <= k < more.len() implies listed(
            next,
            (#[trigger] more[k]).comm@,
        ) by {
            if k > 0 {
                assert(more[k] == all[k - 1]);
            }
        }
    }
}

/// The tasks with the longest totals, longest first.
pub fn top_aggressors(table: AggressorTable) -> (top: Vec<AggressorSummaryJson>)
    requires
        table.wf(),
    ensures
        is_top(top@, table@),
{
    let mut entries = table.into_entries();
    let ghost all = entries@;
    let mut top: Vec<AggressorSummaryJson> = Vec::new();
    proof {
        reveal(is_top_of);
        assert(all.skip(all.len() as int) =~= Seq::<AggressorSummaryJson>::empty());
    }
    while entries.len() > 0
        invariant
            distinct(all),
            entries@.len() <= all.len(),
            entries@ == all.take(entries@.len() as int),
            is_top_of(top@, all.skip(entries@.len() as int)),
        decreases entries@.len(),
    {
        let ghost n = entries@.len() - 1;
        assert(by_total(top@) && top@.len() <= TOP_AGGRESSORS) by {
            reveal(is_top_of);
        }
        if let Some(entry) = entries.pop() {
            let mut p: usize = top.len();
            while p > 0 && top[p - 1].total_ns <= entry.total_ns
                invariant
                    p <= top@.len(),
                    by_total(top@),
                    forall|i: int|
                        p <= i < top@.len() ==> (#[trigger] top@[i]).total_ns <= entry.total_ns,
                decreases p,
            {
                p -= 1;
            }
            proof {
                assert(entry == all[n]);
                assert(seq![entry] + all.skip(n + 1) =~= all.skip(n));
                assert forall|i: int, j: int| 0 <= i < j < all.skip(n).len() implies (
                #[trigger] all.skip(n)[i]).comm@ != (#[trigger] all.skip(n)[j]).comm@ by {
                    assert(all[i + n].comm@ != all[j + n].comm@);
                }
                lemma_top_step(top@, all.skip(n + 1), entry, p as int);
            }
            let ghost before = top@;
            top.insert(p, entry);
            top.truncate(TOP_AGGRESSORS);
            proof {
                assert(entries@ =~= all.take(n));
                assert(top@ =~= if before.len() < TOP_AGGRESSORS {
                    before.insert(p as int, entry)
                } else {
                    before.insert(p as int, entry).take(TOP_AGGRESSORS as int)
                });
            }
        }
    }
    proof {
        reveal(is_top_of);
        assert(all.skip(0) =~= all);
        lemma_tally_map_len(all);
        assert forall|i: int| 0 <= i < top@.len() implies tally_map(all).contains_key(
            (#[trigger] top@[i]).comm@,
        ) && tally_map(all)[top@[i].comm@] == top@[i].tally() by {
            assert(all.contains(top@[i]));
            let k = choose|k: int| 0 <= k < all.len() && all[k] == top@[i];
            lemma_tally_map_entry(all, k);
        }
        assert forall|comm: Seq<char>, i: int|
            tally_map(all).contains_key(comm) && !listed(top@, comm) && 0 <= i
                < top@.len() implies (#[trigger] tally_map(all)[comm]).1 <= (
        #[trigger] top@[i]).total_ns by {
            let k = choose|k: int| 0 <= k < all.len() && #[trigger] all[k].comm@ == comm;
            lemma_tally_map_entry(all, k);
        }
    }
    top
}

/// A new table has no tallies.
pub proof fn law_new_table_is_empty(table: AggressorTable, entries: Vec<AggressorSummaryJson>)
    requires
        call_ensures(AggressorTable::new, (), table),
        call_ensures(AggressorTable::entries, (&table,), &entries),
    ensures
        table.wf(),
        forall|comm: Seq<char>| !(#[trigger] table@.contains_key(comm)),
        entries@.len() == 0,
{
    if entries@.len() > 0 {
        assert(listed(entries@, entries@[0].comm@));
        assert(tally_map(entries@).contains_key(entries@[0].comm@));
    }
}

/// Each name has one entry, with its count and its total, and there are no others.
pub proof fn law_each_name_has_one_entry(
    table: AggressorTable,
    entries: Vec<AggressorSummaryJson>,
    given: Vec<AggressorSummaryJson>,
)
    requires
        call_ensures(AggressorTable::entries, (&table,), &entries),
        call_ensures(AggressorTable::into_entries, (table,), given),
    ensures
        forall|i: int|
            0 <= i < entries@.len() ==> table@.contains_key((#[trigger] entries@[i]).comm@)
                && table@[entries@[i].comm@].0 == entries@[i].count
                && table@[entries@[i].comm@].1 == entries@[i].total_ns,
        forall|i: int, j: int|
            0 <= i < j < entries@.len() ==> (#[trigger] entries@[i]).comm@ != (
            #[trigger] entries@[j]).comm@,
        forall|comm: Seq<char>| #[trigger]
            table@.contains_key(comm) ==> exists|i: int|
                0 <= i < entries@.len() && (#[trigger] entries@[i]).comm@ == comm,
        forall|i: int|
            0 <= i < given@.len() ==> table@.contains_key((#[trigger] given@[i]).comm@)
                && table@[given@[i].comm@].0 == given@[i].count && table@[given@[i].comm@].1
                == given@[i].total_ns,
        forall|comm: Seq<char>| #[trigger]
            table@.contains_key(comm) ==> exists|i: int|
                0 <= i < given@.len() && (#[trigger] given@[i]).comm@ == comm,
{
    assert forall|i: int| 0 <= i < entries@.len() implies table@.contains_key(
        (#[trigger] entries@[i]).comm@,
    ) && table@[entries@[i].comm@].0 == entries@[i].count && table@[entries@[i].comm@].1
        == entries@[i].total_ns by {
        lemma_tally_map_entry(entries@, i);
    }
    assert forall|i: int| 0 <= i < given@.len() implies table@.contains_key(
        (#[trigger] given@[i]).comm@,
    ) && table@[given@[i].comm@].0 == given@[i].count && table@[given@[i].comm@].1
        == given@[i].total_ns by {
        lemma_tally_map_entry(given@, i);
    }
    assert forall|comm: Seq<char>| #[trigger] table@.contains_key(comm) implies exists|i: int|
        0 <= i < entries@.len() && (#[trigger] entries@[i]).comm@ == comm by {
        assert(listed(entries@, comm));
    }
    assert forall|comm: Seq<char>| #[trigger] table@.contains_key(comm) implies exists|i: int|
        0 <= i < given@.len() && (#[trigger] given@[i]).comm@ == comm by {
        assert(listed(given@, comm));
    }
}

/// Counting under a name adds to its count and its total, which start from zero, and leaves every
/// other name as it is. It can be done whenever both sums stay in range, which `fits` tells.
pub proof fn law_counting_adds_to_one_name(
    table: &mut AggressorTable,
    comm: &str,
    count: u32,
    total_ns: u64,
    fits: bool,
)
    requires
        old(table).wf(),
        call_ensures(AggressorTable::fits, (&*old(table), comm, count, total_ns), fits),
        fits ==> call_ensures(AggressorTable::add, (table, comm, count, total_ns), ()),
    ensures
        !old(table)@.contains_key(comm@) ==> fits,
        old(table)@.contains_key(comm@) ==> (fits <==> old(table)@[comm@].0 + count <= u32::MAX
            && old(table)@[comm@].1 + total_ns <= u64::MAX),
        fits ==> call_requires(AggressorTable::add, (table, comm, count, total_ns)),
        fits ==> {
            &&& final(table).wf()
            &&& final(table)@.contains_key(comm@)
            &&& !old(table)@.contains_key(comm@) ==> final(table)@[comm@] == (count, total_ns)
            &&& old(table)@.contains_key(comm@) ==> final(table)@[comm@].0 == old(table)@[comm@].0
                + count && final(table)@[comm@].1 == old(table)@[comm@].1 + total_ns
            &&& forall|other: Seq<char>|
                other != comm@ ==> (#[trigger] final(table)@.contains_key(other)
                    <==> old(table)@.contains_key(other))
            &&& forall|other: Seq<char>|
                other != comm@ && old(table)@.contains_key(other)
                    ==> #[trigger] final(table)@[other] == old(table)@[other]
        },
{
}

/// Merging adds the tallies of the other table name by name. It is refused exactly if a sum goes out
/// of range, and then changes nothing.
pub proof fn law_merging_adds_name_by_name(
    table: &mut AggressorTable,
    other: AggressorTable,
    fits: bool,
)
    requires
        old(table).wf(),
        other.wf(),
        call_ensures(AggressorTable::merge, (table, &other), fits),
    ensures
        fits <==> forall|comm: Seq<char>| #[trigger]
            other@.contains_key(comm) && old(table)@.contains_key(comm) ==> old(table)@[comm].0
                + other@[comm].0 <= u32::MAX && old(table)@[comm].1 + other@[comm].1 <= u64::MAX,
        !fits ==> final(table)@ == old(table)@,
        fits ==> {
            &&& forall|comm: Seq<char>| #[trigger]
                final(table)@.contains_key(comm) <==> old(table)@.contains_key(comm)
                    || other@.contains_key(comm)
            &&& forall|comm: Seq<char>|
                #![trigger final(table)@[comm]]
                old(table)@.contains_key(comm) && other@.contains_key(comm)
                    ==> final(table)@[comm].0 == old(table)@[comm].0 + other@[comm].0
                    && final(table)@[comm].1 == old(table)@[comm].1 + other@[comm].1
            &&& forall|comm: Seq<char>|
                #![trigger final(table)@[comm]]
                old(table)@.contains_key(comm) && !other@.contains_key(comm) ==> final(table)@[comm]
                    == old(table)@[comm]
            &&& forall|comm: Seq<char>|
                #![trigger final(table)@[comm]]
                !old(table)@.contains_key(comm) && other@.contains_key(comm) ==> final(table)@[comm]
                    == other@[comm]
        },
{
    let a = old(table)@;
    let b = other@;
    if fits {
        assert forall|comm: Seq<char>| #[trigger]
            b.contains_key(comm) && a.contains_key(comm) implies a[comm].0 + b[comm].0 <= u32::MAX
            && a[comm].1 + b[comm].1 <= u64::MAX by {
            assert(tally_fits(a, comm, b[comm].0, b[comm].1));
        }
    }
}

/// The top list names the tasks with the longest totals: at most twenty, longest first, each once and
/// with its own figures, and no task that is left out has a longer total than one that is named.
pub proof fn law_top_list_names_the_longest_totals(
    table: AggressorTable,
    top: Vec<AggressorSummaryJson>,
)
    requires
        call_ensures(top_aggressors, (table,), top),
    ensures
        top@.len() == if table@.dom().len() < 20 {
            table@.dom().len()
        } else {
            20
        },
        forall|i: int|
            0 <= i < top@.len() ==> table@.contains_key((#[trigger] top@[i]).comm@)
                && table@[top@[i].comm@].0 == top@[i].count && table@[top@[i].comm@].1
                == top@[i].total_ns,
        forall|i: int, j: int|
            0 <= i < j < top@.len() ==> (#[trigger] top@[i]).total_ns >= (
            #[trigger] top@[j]).total_ns && top@[i].comm@ != top@[j].comm@,
        forall|comm: Seq<char>|
            table@.contains_key(comm) && (forall|i: int|
                0 <= i < top@.len() ==> (#[trigger] top@[i]).comm@ != comm) ==> forall|i: int|
                0 <= i < top@.len() ==> (#[trigger] table@[comm]).1 <= (
                #[trigger] top@[i]).total_ns,
{
    lemma_top_in_full(top@, table@);
}

/// What the top of tallies is, in full.
pub proof fn lemma_top_in_full(
    top: Seq<AggressorSummaryJson>,
    tallies: Map<Seq<char>, (u32, u64)>,
)
    requires
        is_top(top, tallies),
    ensures
        top.len() == if tallies.dom().len() < 20 {
            tallies.dom().len()
        } else {
            20
        },
        forall|i: int|
            0 <= i < top.len() ==> tallies.contains_key((#[trigger] top[i]).comm@)
                && tallies[top[i].comm@].0 == top[i].count && tallies[top[i].comm@].1
                == top[i].total_ns,
        forall|i: int, j: int|
            0 <= i < j < top.len() ==> (#[trigger] top[i]).total_ns >= (#[trigger] top[j]).total_ns
                && top[i].comm@ != top[j].comm@,
        forall|comm: Seq<char>|
            tallies.contains_key(comm) && (forall|i: int|
                0 <= i < top.len() ==> (#[trigger] top[i]).comm@ != comm) ==> forall|i: int|
                0 <= i < top.len() ==> (#[trigger] tallies[comm]).1 <= (
                #[trigger] top[i]).total_ns,
{
    assert forall|comm: Seq<char>|
        tallies.contains_key(comm) && (forall|i: int|
            0 <= i < top.len() ==> (#[trigger] top[i]).comm@ != comm) implies forall|i: int|
        0 <= i < top.len() ==> (#[trigger] tallies[comm]).1 <= (#[trigger] top[i]).total_ns by {
        assert(!listed(top, comm));
    }
}

} // verus!
