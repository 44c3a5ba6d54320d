use vstd::prelude::*;

use crate::input::same_text;
use crate::region::{nat_digits, push_digits};

verus! {

/// A directory entry as the listing gives it: its file name, and whether it
/// is a regular file.
pub struct Entry {
    pub name: String,
    pub is_file: bool,
}

/// The siblings of `source` in a listing: the names of the regular files
/// other than `source`, in listing order.
pub open spec fn sibling_names(entries: Seq<Entry>, source: Seq<char>) -> Seq<Seq<char>>
    decreases entries.len(),
{
    if entries.len() == 0 {
        Seq::empty()
    } else {
        let rest = sibling_names(entries.drop_last(), source);
        let e = entries.last();
        if e.is_file && e.name@ != source {
            rest.push(e.name@)
        } else {
            rest
        }
    }
}

/// No two entries of the listing share a name.
pub open spec fn distinct_names(entries: Seq<Entry>) -> bool {
    forall|i: int, j: int| 0 <= i < j < entries.len() ==> entries[i].name@ != entries[j].name@
}

proof fn lemma_sibling_names(entries: Seq<Entry>, source: Seq<char>)
    ensures
        !sibling_names(entries, source).contains(source),
        forall|j: int|
            0 <= j < sibling_names(entries, source).len() ==> exists|k: int|
                0 <= k < entries.len() && entries[k].name@ == #[trigger] sibling_names(
                    entries,
                    source,
                )[j],
        distinct_names(entries) ==> sibling_names(entries, source).no_duplicates(),
    decreases entries.len(),
{
    if entries.len() > 0 {
        let init = entries.drop_last();
        lemma_sibling_names(init, source);
        let rest = sibling_names(init, source);
        let sib = sibling_names(entries, source);
        let e = entries.last();
        assert forall|j: int| 0 <= j < sib.len() implies exists|k: int|
            0 <= k < entries.len() && entries[k].name@ == #[trigger] sib[j] by {
            if j < rest.len() {
                assert(sib[j] == rest[j]);
                let k = choose|k: int| 0 <= k < init.len() && init[k].name@ == rest[j];
                assert(entries[k] == init[k]);
            } else {
                assert(entries[entries.len() - 1].name@ == sib[j]);
            }
        }
        if distinct_names(entries) {
            assert(distinct_names(init)) by {
                assert forall|i: int, j: int| 0 <= i < j < init.len() implies init[i].name@
                    != init[j].name@ by {
                    assert(init[i] == entries[i]);
                    assert(init[j] == entries[j]);
                }
            }
            if e.is_file && e.name@ != source {
                assert forall|j: int| 0 <= j < rest.len() implies rest[j] != e.name@ by {
                    let k = choose|k: int| 0 <= k < init.len() && init[k].name@ == rest[j];
                    assert(init[k] == entries[k]);
                }
            }
        }
        if e.is_file && e.name@ != source {
            assert forall|j: int| 0 <= j < sib.len() implies sib[j] != source by {
                if j < rest.len() {
                    assert(sib[j] == rest[j]);
                }
            }
        }
    }
}

/// What became of one sibling file.
#[derive(Clone, Copy, Debug, PartialEq, Eq, Structural)]
pub enum Outcome {
    /// Removed, then recreated as a copy of the source region.
    Replaced,
    /// Its removal failed; it was left as it was.
    RemoveFailed,
    /// Removed, but recreating it failed; it is gone.
    RecreateFailed,
}

/// The file operation that the run asks for next.
#[derive(Clone, Copy, Debug, PartialEq, Eq, Structural)]
pub enum Action {
    /// Remove the sibling with this index.
    Remove(usize),
    /// Copy the source region to the sibling with this index, just removed.
    Recreate(usize),
    /// Every sibling has been handled.
    Finished,
}

/// The state of a run in mathematical terms.
pub struct RunView {
    /// The siblings, in the order in which they are handled.
    pub names: Seq<Seq<char>>,
    /// How many siblings have been handled.
    pub index: nat,
    /// Whether the sibling at `index` was removed and waits to be recreated.
    pub copying: bool,
    /// What became of each handled sibling.
    pub outcomes: Seq<Outcome>,
    /// How many siblings were replaced.
    pub success: nat,
    /// How many siblings could not be replaced.
    pub failure: nat,
}

/// A run that has not begun, over these siblings.
pub open spec fn start_view(names: Seq<Seq<char>>) -> RunView {
    RunView { names, index: 0, copying: false, outcomes: Seq::empty(), success: 0, failure: 0 }
}

/// The counts agree with the outcomes and the position.
pub open spec fn run_wf(v: RunView) -> bool {
    &&& v.index <= v.names.len()
    &&& v.outcomes.len() == v.index
    &&& v.success + v.failure == v.index
    &&& v.copying ==> v.index < v.names.len()
}

/// Every sibling has been handled.
pub open spec fn finished(v: RunView) -> bool {
    v.index >= v.names.len()
}

/// The file operation that the run in state `v` asks for.
pub open spec fn next_action_of(v: RunView) -> Action {
    if finished(v) {
        Action::Finished
    } else if v.copying {
        Action::Recreate(v.index as usize)
    } else {
        Action::Remove(v.index as usize)
    }
}

/// The state after the pending action succeeded (`ok`) or failed.
pub open spec fn advance(v: RunView, ok: bool) -> RunView {
    if finished(v) {
        v
    } else if v.copying {
        if ok {
            RunView {
                index: v.index + 1,
                copying: false,
                outcomes: v.outcomes.push(Outcome::Replaced),
                success: v.success + 1,
                ..v
            }
        } else {
            RunView {
                index: v.index + 1,
                copying: false,
                outcomes: v.outcomes.push(Outcome::RecreateFailed),
                failure: v.failure + 1,
                ..v
            }
        }
    } else if ok {
        RunView { copying: true, ..v }
    } else {
        RunView {
            index: v.index + 1,
            outcomes: v.outcomes.push(Outcome::RemoveFailed),
            failure: v.failure + 1,
            ..v
        }
    }
}

/// The text of the closing tally.
pub open spec fn tally_text(success: nat, failure: nat) -> Seq<char> {
    seq!['S', 'u', 'c', 'c', 'e', 's', 's', ' '] + nat_digits(success) + seq![
        ',',
        ' ',
        'F',
        'a',
        'i',
        'l',
        'u',
        'r',
        'e',
        ' ',
    ] + nat_digits(failure) + seq!['.']
}

/// A run of the duplication: which sibling comes next, what to do with it,
/// and the tally so far.
pub struct Duplication {
    names: Vec<String>,
    index: usize,
    copying: bool,
    outcomes: Vec<Outcome>,
    success: usize,
    failure: usize,
}

impl View for Duplication {
    type V = RunView;

    closed spec fn view(&self) -> RunView {
        RunView {
            names: self.names@.map_values(|s: String| s@),
            index: self.index as nat,
            copying: self.copying,
            outcomes: self.outcomes@,
            success: self.success as nat,
            failure: self.failure as nat,
        }
    }
}

impl Duplication {
    /// The run's counts agree with its outcomes and position.
    pub open spec fn wf(&self) -> bool {
        run_wf(self@)
    }

    /// Starts a run over the siblings of the source region file named
    /// `source` in a directory listing.
    pub fn new(entries: &Vec<Entry>, source: &str) -> (r: Self)
        ensures
            r.wf(),
            r@ == start_view(sibling_names(entries@, source@)),
            !r@.names.contains(source@),
            distinct_names(entries@) ==> r@.names.no_duplicates(),
    {
        let mut names: Vec<String> = Vec::new();
        let mut i: usize = 0;
        while i < entries.len()
            invariant
                i <= entries@.len(),
                names@.map_values(|s: String| s@) == sibling_names(
                    entries@.subrange(0, i as int),
                    source@,
                ),
            decreases entries@.len() - i,
        {
            let ghost before = names@.map_values(|s: String| s@);
            let e = &entries[i];
            proof {
                assert(entries@.subrange(0, i + 1).drop_last() =~= entries@.subrange(0, i as int));
                assert(entries@.subrange(0, i + 1).last() == entries@[i as int]);
            }
            if e.is_file && !same_text(e.name.as_str(), source) {
                names.push(e.name.clone());
                assert(names@.map_values(|s: String| s@) =~= before.push(e.name@));
            }
            i = i + 1;
        }
        proof {
            assert(entries@.subrange(0, entries@.len() as int) =~= entries@);
            lemma_sibling_names(entries@, source@);
        }
        let r = Duplication {
            names,
            index: 0,
            copying: false,
            outcomes: Vec::new(),
            success: 0,
            failure: 0,
        };
        assert(r@.outcomes =~= Seq::<Outcome>::empty());
        r
    }

    /// The file operation to perform next.
    pub fn next_action(&self) -> (r: Action)
        requires
            self.wf(),
        ensures
            r == next_action_of(self@),
    {
        if self.index >= self.names.len() {
            Action::Finished
        } else if self.copying {
            Action::Recreate(self.index)
        } else {
            Action::Remove(self.index)
        }
    }

    /// Records whether the pending action succeeded.
    pub fn record(&mut self, succeeded: bool)
        requires
            old(self).wf(),
        ensures
            final(self).wf(),
            final(self)@ == advance(old(self)@, succeeded),
    {
        if self.index >= self.names.len() {
            return;
        }
        if self.copying {
            if succeeded {
                self.outcomes.push(Outcome::Replaced);
                self.success = self.success + 1;
            } else {
                self.outcomes.push(Outcome::RecreateFailed);
                self.failure = self.failure + 1;
            }
            self.copying = false;
            self.index = self.index + 1;
        } else if succeeded {
            self.copying = true;
        } else {
            self.outcomes.push(Outcome::RemoveFailed);
            self.failure = self.failure + 1;
            self.index = self.index + 1;
        }
    }

    /// How many siblings the run handles.
    pub fn len(&self) -> (r: usize)
        ensures
            r == self@.names.len(),
    {
        self.names.len()
    }

    /// Name of the sibling with index `i`.
    pub fn name(&self, i: usize) -> (r: &String)
        requires
            i < self@.names.len(),
        ensures
            r@ == self@.names[i as int],
    {
        &self.names[i]
    }

    /// Whether every sibling has been handled.
    pub fn is_finished(&self) -> (r: bool)
        ensures
            r == finished(self@),
    {
        self.index >= self.names.len()
    }

    /// How many siblings were replaced so far.
    pub fn success(&self) -> (r: usize)
        ensures
            r == self@.success,
    {
        self.success
    }

    /// How many siblings could not be replaced so far.
    pub fn failure(&self) -> (r: usize)
        ensures
            r == self@.failure,
    {
        self.failure
    }

    /// The closing tally: `Success <s>, Failure <f>.`
    pub fn tally_line(&self) -> (r: String)
        ensures
            r@ == tally_text(self@.success, self@.failure),
    {
        let mut line = String::from_str("Success ");
        push_digits(self.success as u64, &mut line);
        line.append(", Failure ");
        push_digits(self.failure as u64, &mut line);
        line.append(".");
        proof {
            reveal_strlit("Success ");
            reveal_strlit(", Failure ");
            reveal_strlit(".");
        }
        assert(line@ =~= tally_text(self@.success, self@.failure));
        line
    }

    /// What became of the handled sibling with index `i`.
    pub fn outcome(&self, i: usize) -> (r: Outcome)
        requires
            self.wf(),
            i < self@.index,
        ensures
            r == self@.outcomes[i as int],
    {
        self.outcomes[i]
    }
}

/// Effect of the pending action on the directory's files (name to bytes),
/// given whether it succeeded. A removal that succeeds takes the file away; a
/// recreation that succeeds puts a copy of the source region's bytes under the
/// sibling's name; an action that fails leaves the files as they were.
pub open spec fn apply_action(
    v: RunView,
    source: Seq<char>,
    files: Map<Seq<char>, Seq<u8>>,
    ok: bool,
) -> Map<Seq<char>, Seq<u8>> {
    if finished(v) || !ok {
        files
    } else if v.copying {
        files.insert(v.names[v.index as int], files[source])
    } else {
        files.remove(v.names[v.index as int])
    }
}

/// The state of the run and the directory's files after the actions that
/// the run asks for have had the results `events`, one after the other.
pub open spec fn replay(
    v: RunView,
    source: Seq<char>,
    files: Map<Seq<char>, Seq<u8>>,
    events: Seq<bool>,
) -> (RunView, Map<Seq<char>, Seq<u8>>)
    decreases events.len(),
{
    if events.len() == 0 {
        (v, files)
    } else {
        replay(
            advance(v, events[0]),
            source,
            apply_action(v, source, files, events[0]),
            events.drop_first(),
        )
    }
}

/// The state of the sibling `name` after the outcome `o`, against the files
/// `before` the run.
pub open spec fn fate_holds(
    o: Outcome,
    name: Seq<char>,
    source: Seq<char>,
    before: Map<Seq<char>, Seq<u8>>,
    files: Map<Seq<char>, Seq<u8>>,
) -> bool {
    match o {
        Outcome::Replaced => files.contains_key(name) && files[name] == before[source],
        Outcome::RemoveFailed => files.contains_key(name) && files[name] == before[name],
        Outcome::RecreateFailed => !files.contains_key(name),
    }
}

/// The file `name` is as it was `before`.
pub open spec fn unchanged(
    name: Seq<char>,
    before: Map<Seq<char>, Seq<u8>>,
    files: Map<Seq<char>, Seq<u8>>,
) -> bool {
    &&& files.contains_key(name) == before.contains_key(name)
    &&& files.contains_key(name) ==> files[name] == before[name]
}

/// How many more results the run can take before it is finished.
pub open spec fn steps_left(v: RunView) -> nat {
    if finished(v) {
        0
    } else if v.copying {
        (2 * (v.names.len() - v.index) - 1) as nat
    } else {
        (2 * (v.names.len() - v.index)) as nat
    }
}

/// The run `v` and the files agree, against the files `before` the run.
pub open spec fn consistent(
    v: RunView,
    source: Seq<char>,
    before: Map<Seq<char>, Seq<u8>>,
    files: Map<Seq<char>, Seq<u8>>,
) -> bool {
    &&& run_wf(v)
    &&& v.names.no_duplicates()
    &&& !v.names.contains(source)
    &&& before.contains_key(source)
    &&& forall|i: int| 0 <= i < v.names.len() ==> before.contains_key(#[trigger] v.names[i])
    &&& files.contains_key(source) && files[source] == before[source]
    &&& forall|i: int|
        0 <= i < v.index ==> fate_holds(
            #[trigger] v.outcomes[i],
            v.names[i],
            source,
            before,
            files,
        )
    &&& forall|i: int|
        v.index <= i < v.names.len() && !(i == v.index && v.copying) ==> unchanged(
            #[trigger] v.names[i],
            before,
            files,
        )
    &&& v.copying ==> !files.contains_key(v.names[v.index as int])
    &&& forall|k: Seq<char>| !v.names.contains(k) ==> #[trigger] unchanged(k, before, files)
}

proof fn lemma_step(
    v: RunView,
    source: Seq<char>,
    before: Map<Seq<char>, Seq<u8>>,
    files: Map<Seq<char>, Seq<u8>>,
    ok: bool,
)
    requires
        consistent(v, source, before, files),
    ensures
        consistent(advance(v, ok), source, before, apply_action(v, source, files, ok)),
        !finished(v) ==> steps_left(advance(v, ok)) < steps_left(v),
{
    if !finished(v) {
        let w = advance(v, ok);
        let after = apply_action(v, source, files, ok);
        let n = v.names[v.index as int];
        assert(v.names.contains(n));
        assert forall|i: int| 0 <= i < v.names.len() && i != v.index implies v.names[i] != n by {
        }
        assert(n != source);
        if v.copying {
            assert(!files.contains_key(n));
            if ok {
                assert(after == files.insert(n, files[source]));
            } else {
                assert(after == files);
            }
        } else {
            assert(unchanged(n, before, files));
            if ok {
                assert(after == files.remove(n));
            } else {
                assert(after == files);
            }
        }
        assert(after.contains_key(source) && after[source] == before[source]);
        assert forall|i: int| 0 <= i < w.index implies fate_holds(
            #[trigger] w.outcomes[i],
            w.names[i],
            source,
            before,
            after,
        ) by {
            if i < v.index {
                assert(w.outcomes[i] == v.outcomes[i]);
                assert(fate_holds(v.outcomes[i], v.names[i], source, before, files));
            } else {
                assert(i == v.index);
            }
        }
        assert forall|i: int|
            w.index <= i < w.names.len() && !(i == w.index && w.copying) implies unchanged(
            #[trigger] w.names[i],
            before,
            after,
        ) by {
            assert(unchanged(v.names[i], before, files));
        }
        assert forall|k: Seq<char>| !w.names.contains(k) implies #[trigger] unchanged(
            k,
            before,
            after,
        ) by {
            assert(unchanged(k, before, files));
        }
    }
}

proof fn lemma_replay(
    v: RunView,
    source: Seq<char>,
    before: Map<Seq<char>, Seq<u8>>,
    files: Map<Seq<char>, Seq<u8>>,
    events: Seq<bool>,
)
    requires
        consistent(v, source, before, files),
    ensures
        consistent(replay(v, source, files, events).0, source, before, replay(v, source, files, events).1),
        replay(v, source, files, events).0.names == v.names,
        events.len() >= steps_left(v) ==> finished(replay(v, source, files, events).0),
    decreases events.len(),
{
    if events.len() > 0 {
        lemma_step(v, source, before, files, events[0]);
        lemma_replay(
            advance(v, events[0]),
            source,
            before,
            apply_action(v, source, files, events[0]),
            events.drop_first(),
        );
    }
}

/// What a run starts from: distinct sibling names, none of them the source
/// region's, all of them files of the directory, as is the source region.
pub open spec fn run_premise(
    names: Seq<Seq<char>>,
    source: Seq<char>,
    before: Map<Seq<char>, Seq<u8>>,
) -> bool {
    &&& names.no_duplicates()
    &&& !names.contains(source)
    &&& before.contains_key(source)
    &&& forall|i: int| 0 <= i < names.len() ==> before.contains_key(#[trigger] names[i])
}

proof fn lemma_run(
    names: Seq<Seq<char>>,
    source: Seq<char>,
    before: Map<Seq<char>, Seq<u8>>,
    events: Seq<bool>,
)
    requires
        run_premise(names, source, before),
    ensures
        consistent(
            replay(start_view(names), source, before, events).0,
            source,
            before,
            replay(start_view(names), source, before, events).1,
        ),
        replay(start_view(names), source, before, events).0.names == names,
        events.len() >= 2 * names.len() ==> finished(
            replay(start_view(names), source, before, events).0,
        ),
{
    let v = start_view(names);
    assert forall|k: Seq<char>| !v.names.contains(k) implies #[trigger] unchanged(
        k,
        before,
        before,
    ) by {}
    assert forall|i: int| v.index <= i < v.names.len() && !(i == v.index && v.copying) implies unchanged(
        #[trigger] v.names[i],
        before,
        before,
    ) by {}
    lemma_replay(v, source, before, before, events);
}

/// Whatever each file operation returns, the source region file keeps its
/// name and its bytes, and every file that is not a sibling stays as it was.
pub proof fn lemma_source_untouched(
    names: Seq<Seq<char>>,
    source: Seq<char>,
    before: Map<Seq<char>, Seq<u8>>,
    events: Seq<bool>,
)
    requires
        run_premise(names, source, before),
    ensures
        ({
            let after = replay(start_view(names), source, before, events).1;
            &&& after.contains_key(source)
            &&& after[source] == before[source]
            &&& forall|k: Seq<char>| !names.contains(k) ==> #[trigger] unchanged(k, before, after)
        }),
{
    lemma_run(names, source, before, events);
}

/// Whatever each file operation returns, each handled sibling whose removal
/// did not fail now holds the source region's bytes, or is absent because
/// recreating it failed: it never keeps its own content. One whose removal
/// failed is left as it was.
pub proof fn lemma_siblings_replaced_or_absent(
    names: Seq<Seq<char>>,
    source: Seq<char>,
    before: Map<Seq<char>, Seq<u8>>,
    events: Seq<bool>,
)
    requires
        run_premise(names, source, before),
    ensures
        ({
            let (v, after) = replay(start_view(names), source, before, events);
            forall|i: int|
                0 <= i < v.index ==> {
                    &&& fate_holds(#[trigger] v.outcomes[i], names[i], source, before, after)
                    &&& v.outcomes[i] != Outcome::RemoveFailed ==> {
                        ||| after.contains_key(names[i]) && after[names[i]] == before[source]
                        ||| !after.contains_key(names[i])
                    }
                }
        }),
{
    lemma_run(names, source, before, events);
    let (v, after) = replay(start_view(names), source, before, events);
    assert forall|i: int| 0 <= i < v.index implies {
        &&& fate_holds(#[trigger] v.outcomes[i], names[i], source, before, after)
        &&& v.outcomes[i] != Outcome::RemoveFailed ==> {
            ||| after.contains_key(names[i]) && after[names[i]] == before[source]
            ||| !after.contains_key(names[i])
        }
    } by {
        assert(fate_holds(v.outcomes[i], v.names[i], source, before, after));
    }
}

/// A run over `n` siblings is finished after at most `2 * n` results, and a
/// finished run has counted every sibling once, as a success or a failure.
pub proof fn lemma_tally_complete(
    names: Seq<Seq<char>>,
    source: Seq<char>,
    before: Map<Seq<char>, Seq<u8>>,
    events: Seq<bool>,
)
    requires
        run_premise(names, source, before),
    ensures
        ({
            let v = replay(start_view(names), source, before, events).0;
            &&& events.len() >= 2 * names.len() ==> finished(v)
            &&& finished(v) ==> v.success + v.failure == names.len()
        }),
{
    lemma_run(names, source, before, events);
}

} // verus!
