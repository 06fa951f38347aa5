use crate::catalog::{File, SearchCandidate};
use crate::ranking::Ranking;
use vstd::prelude::*;
use vstd::string::*;

verus! {

/// Where the interactive narrowing stands.
#[derive(Clone, Copy, Debug, PartialEq, Eq, Structural)]
pub enum SelectionState {
    /// The ranked groups are on show.
    ListingGroups,
    /// The files of the chosen group are on show.
    ConfirmingFile { group: usize },
    /// A file was chosen; its download link is being resolved.
    Downloading { group: usize, file: usize },
    /// The session is over.
    Exiting,
}

/// What happened since the last step.
#[derive(Debug)]
pub enum SelectionEvent {
    /// The user picked the entry at this position of the list on show.
    Chosen(usize),
    /// The user cancelled the prompt on show.
    Cancelled,
    /// The catalog resolved the chosen file to this address.
    LinkResolved(String),
    /// The catalog resolved no address for the chosen file.
    LinkMissing,
}

/// What the caller is to do next.
#[derive(Debug)]
pub enum SelectionAction {
    /// Present the ranked group labels and report the choice.
    PresentGroups,
    /// Present the file labels of this group and report the choice.
    PresentFiles { group: usize },
    /// Ask the catalog for the download address of this file.
    ResolveLink { file_id: i32 },
    /// Download from this address; the session is over.
    Download { url: String },
    /// Tell the user the download failed; the session is over.
    ReportFailure,
    /// Nothing more to do.
    Finish,
}

/// A file of a group: the position of its candidate and its position among that
/// candidate's files.
pub struct FileRef {
    pub candidate: usize,
    pub file: usize,
}

/// The files of one candidate, in order.
pub open spec fn candidate_file_refs(c: usize, n: nat) -> Seq<FileRef> {
    Seq::new(n, |k: int| FileRef { candidate: c, file: k as usize })
}

/// The files of every member, member by member, each candidate's files in order.
pub open spec fn file_refs(s: Seq<SearchCandidate>, members: Seq<usize>) -> Seq<FileRef>
    decreases members.len(),
{
    if members.len() == 0 {
        Seq::empty()
    } else {
        file_refs(s, members.drop_last()) + candidate_file_refs(
            members.last(),
            s[members.last() as int].files@.len(),
        )
    }
}

/// `f` names a file of a candidate of `s`.
pub open spec fn ref_in(s: Seq<SearchCandidate>, f: FileRef) -> bool {
    f.candidate < s.len() && f.file < s[f.candidate as int].files@.len()
}

proof fn lemma_file_refs_in(s: Seq<SearchCandidate>, m: Seq<usize>)
    requires
        forall|k: int| 0 <= k < m.len() ==> #[trigger] m[k] < s.len(),
    ensures
        forall|t: int| 0 <= t < file_refs(s, m).len() ==> ref_in(s, #[trigger] file_refs(s, m)[t]),
    decreases m.len(),
{
    if m.len() > 0 {
        let p = m.drop_last();
        assert forall|k: int| 0 <= k < p.len() implies #[trigger] p[k] < s.len() by {
            assert(p[k] == m[k]);
        }
        lemma_file_refs_in(s, p);
        let a = file_refs(s, p);
        let b = candidate_file_refs(m.last(), s[m.last() as int].files@.len());
        assert(m.last() == m[m.len() - 1]);
        assert forall|t: int| 0 <= t < file_refs(s, m).len() implies ref_in(
            s,
            #[trigger] file_refs(s, m)[t],
        ) by {
            if t < a.len() {
                assert(file_refs(s, m)[t] == a[t]);
            } else {
                assert(file_refs(s, m)[t] == b[t - a.len()]);
            }
        }
    }
}

proof fn lemma_refs_valid(r: &Ranking, g: int)
    requires
        r.well_formed(),
        0 <= g < r.entries@.len(),
    ensures
        forall|t: int| 0 <= t < r.files_of(g).len() ==> r.valid_ref(#[trigger] r.files_of(g)[t]),
{
    let m = r.entries@[g].members@;
    assert forall|k: int| 0 <= k < m.len() implies #[trigger] m[k] < r.candidates@.len() by {
        assert(r.entries@[g].members@[k] < r.candidates@.len());
    }
    lemma_file_refs_in(r.candidates@, m);
}

/// The decimal digit for `d < 10`.
pub open spec fn digit_char(d: nat) -> char {
    seq!['0', '1', '2', '3', '4', '5', '6', '7', '8', '9'][d as int]
}

/// The decimal digits of `n`, without leading zeros.
pub open spec fn digits_of(n: nat) -> Seq<char>
    decreases n,
{
    if n < 10 {
        seq![digit_char(n)]
    } else {
        digits_of(n / 10).push(digit_char(n % 10))
    }
}

/// The decimal text of `n`, with a leading `-` when negative.
pub open spec fn decimal(n: int) -> Seq<char> {
    if n < 0 {
        seq!['-'] + digits_of((-n) as nat)
    } else {
        digits_of(n as nat)
    }
}

/// `"{file_name} [id: {file_id}]"`.
pub open spec fn file_label(f: File) -> Seq<char> {
    f.file_name@ + " [id: "@ + decimal(f.file_id as int) + "]"@
}

/// Relies on `i32`'s `ToString`: its decimal text, `-` first when negative.
#[verifier::external_body]
fn i32_text(n: i32) -> (r: String)
    ensures
        r@ == decimal(n as int),
{
    n.to_string()
}

impl Ranking {
    /// Every group member is a position of `candidates`.
    pub open spec fn well_formed(&self) -> bool {
        forall|g: int, k: int|
            0 <= g < self.entries@.len() && 0 <= k < self.entries@[g].members@.len()
                ==> #[trigger] self.entries@[g].members@[k] < self.candidates@.len()
    }

    /// The files of the group at position `group`, in presentation order.
    pub open spec fn files_of(&self, group: int) -> Seq<FileRef> {
        file_refs(self.candidates@, self.entries@[group].members@)
    }

    /// A reference names a file of a candidate.
    pub open spec fn valid_ref(&self, f: FileRef) -> bool {
        ref_in(self.candidates@, f)
    }

    /// The file behind a reference.
    pub open spec fn file_at(&self, f: FileRef) -> File {
        self.candidates@[f.candidate as int].files@[f.file as int]
    }
}

/// The next state, and what to do in it, after `event` in `state`. While a list is on
/// show, a choice outside it, or an event about links, leaves the state as it is and
/// presents the list again. While a link is resolved, only its outcome leads to a download
/// or a failure report; any other event ends the session.
pub open spec fn transition(r: &Ranking, state: SelectionState, event: SelectionEvent) -> (
    SelectionState,
    SelectionAction,
) {
    match state {
        SelectionState::ListingGroups => match event {
            SelectionEvent::Chosen(i) => if i < r.entries@.len() {
                (
                    SelectionState::ConfirmingFile { group: i },
                    SelectionAction::PresentFiles { group: i },
                )
            } else {
                (state, SelectionAction::PresentGroups)
            },
            SelectionEvent::Cancelled => (SelectionState::Exiting, SelectionAction::Finish),
            _ => (state, SelectionAction::PresentGroups),
        },
        SelectionState::ConfirmingFile { group } => match event {
            SelectionEvent::Chosen(j) => if group < r.entries@.len() && j < r.files_of(
                group as int,
            ).len() {
                (
                    SelectionState::Downloading { group, file: j },
                    SelectionAction::ResolveLink {
                        file_id: r.file_at(r.files_of(group as int)[j as int]).file_id,
                    },
                )
            } else {
                (state, SelectionAction::PresentFiles { group })
            },
            SelectionEvent::Cancelled => (
                SelectionState::ListingGroups,
                SelectionAction::PresentGroups,
            ),
            _ => (state, SelectionAction::PresentFiles { group }),
        },
        SelectionState::Downloading { .. } => match event {
            SelectionEvent::LinkResolved(url) => (
                SelectionState::Exiting,
                SelectionAction::Download { url },
            ),
            SelectionEvent::LinkMissing => (SelectionState::Exiting, SelectionAction::ReportFailure),
            _ => (SelectionState::Exiting, SelectionAction::Finish),
        },
        SelectionState::Exiting => (SelectionState::Exiting, SelectionAction::Finish),
    }
}

/// The state a session starts in, and what to do first.
pub fn start() -> (r: (SelectionState, SelectionAction))
    ensures
        r.0 == SelectionState::ListingGroups,
        r.1 == SelectionAction::PresentGroups,
{
    (SelectionState::ListingGroups, SelectionAction::PresentGroups)
}

/// The files of one group, member by member, each candidate's files in order.
pub fn group_files(r: &Ranking, group: usize) -> (out: Vec<FileRef>)
    requires
        r.well_formed(),
        group < r.entries@.len(),
    ensures
        out@ == r.files_of(group as int),
{
    let members = &r.entries[group].members;
    let ghost m = members@;
    let mut out: Vec<FileRef> = Vec::new();
    let mut i: usize = 0;
    while i < members.len()
        invariant
            i <= m.len(),
            members@ == m,
            m == r.entries@[group as int].members@,
            r.well_formed(),
            group < r.entries@.len(),
            out@ == file_refs(r.candidates@, m.take(i as int)),
        decreases m.len() - i,
    {
        let c = members[i];
        assert(c < r.candidates@.len()) by {
            assert(r.entries@[group as int].members@[i as int] < r.candidates@.len());
        }
        let files = &r.candidates[c].files;
        let ghost before = out@;
        let mut k: usize = 0;
        while k < files.len()
            invariant
                k <= files@.len(),
                files@ == r.candidates@[c as int].files@,
                out@ == before + candidate_file_refs(c, k as nat),
            decreases files@.len() - k,
        {
            out.push(FileRef { candidate: c, file: k });
            assert(out@ =~= before + candidate_file_refs(c, (k + 1) as nat));
            k += 1;
        }
        assert(m.take(i + 1).drop_last() =~= m.take(i as int));
        i += 1;
    }
    assert(m.take(i as int) =~= m);
    out
}

/// `"{file_name} [id: {file_id}]"`.
pub fn make_file_label(f: &File) -> (r: String)
    ensures
        r@ == file_label(*f),
{
    let mut s = f.file_name.clone();
    s.append(" [id: ");
    let id = i32_text(f.file_id);
    s.append(id.as_str());
    s.append("]");
    proof {
        reveal_strlit(" [id: ");
        reveal_strlit("]");
    }
    s
}

/// The labels of the files of one group, in presentation order.
pub fn file_labels(r: &Ranking, group: usize) -> (out: Vec<String>)
    requires
        r.well_formed(),
        group < r.entries@.len(),
    ensures
        out@.len() == r.files_of(group as int).len(),
        forall|j: int|
            0 <= j < out@.len() ==> #[trigger] out@[j]@ == file_label(
                r.file_at(r.files_of(group as int)[j]),
            ),
{
    let refs = group_files(r, group);
    proof {
        lemma_refs_valid(r, group as int);
    }
    let mut out: Vec<String> = Vec::new();
    let mut j: usize = 0;
    while j < refs.len()
        invariant
            j <= refs@.len(),
            refs@ == r.files_of(group as int),
            r.well_formed(),
            group < r.entries@.len(),
            forall|t: int| 0 <= t < refs@.len() ==> r.valid_ref(#[trigger] refs@[t]),
            out@.len() == j,
            forall|t: int| 0 <= t < j ==> #[trigger] out@[t]@ == file_label(r.file_at(refs@[t])),
        decreases refs@.len() - j,
    {
        let f = &refs[j];
        assert(r.valid_ref(refs@[j as int]));
        let l = make_file_label(&r.candidates[f.candidate].files[f.file]);
        out.push(l);
        j += 1;
    }
    out
}

/// Advances the session: the next state after `event` in `state`, and the action to take.
/// Cancelling the group list ends the session; cancelling the file list goes back to the
/// group list; an unresolved link reports the failure and ends the session without a
/// download.
pub fn step(r: &Ranking, state: SelectionState, event: SelectionEvent) -> (out: (
    SelectionState,
    SelectionAction,
))
    requires
        r.well_formed(),
    ensures
        out == transition(r, state, event),
{
    match state {
        SelectionState::ListingGroups => match event {
            SelectionEvent::Chosen(i) => if i < r.entries.len() {
                (
                    SelectionState::ConfirmingFile { group: i },
                    SelectionAction::PresentFiles { group: i },
                )
            } else {
                (state, SelectionAction::PresentGroups)
            },
            SelectionEvent::Cancelled => (SelectionState::Exiting, SelectionAction::Finish),
            _ => (state, SelectionAction::PresentGroups),
        },
        SelectionState::ConfirmingFile { group } => match event {
            SelectionEvent::Chosen(j) => {
                if group < r.entries.len() {
                    let refs = group_files(r, group);
                    if j < refs.len() {
                        let f = &refs[j];
                        proof {
                            lemma_refs_valid(r, group as int);
                            assert(r.valid_ref(refs@[j as int]));
                        }
                        let file_id = r.candidates[f.candidate].files[f.file].file_id;
                        return (
                            SelectionState::Downloading { group, file: j },
                            SelectionAction::ResolveLink { file_id },
                        );
                    }
                }
                (state, SelectionAction::PresentFiles { group })
            },
            SelectionEvent::Cancelled => (
                SelectionState::ListingGroups,
                SelectionAction::PresentGroups,
            ),
            _ => (state, SelectionAction::PresentFiles { group }),
        },
        SelectionState::Downloading { .. } => match event {
            SelectionEvent::LinkResolved(url) => (
                SelectionState::Exiting,
                SelectionAction::Download { url },
            ),
            SelectionEvent::LinkMissing => (SelectionState::Exiting, SelectionAction::ReportFailure),
            _ => (SelectionState::Exiting, SelectionAction::Finish),
        },
        SelectionState::Exiting => (SelectionState::Exiting, SelectionAction::Finish),
    }
}

} // verus!

verus! {

/// Cancelling never loops: cancelling the group list ends the session, cancelling the
/// file list goes back to the group list, and from any state two cancels in a row end
/// the session.
pub proof fn lemma_cancel_reaches_exit(r: &Ranking, state: SelectionState)
    ensures
        state == SelectionState::ListingGroups ==> transition(
            r,
            state,
            SelectionEvent::Cancelled,
        ).0 == SelectionState::Exiting,
        state is ConfirmingFile ==> transition(r, state, SelectionEvent::Cancelled).0
            == SelectionState::ListingGroups,
        transition(r, transition(r, state, SelectionEvent::Cancelled).0, SelectionEvent::Cancelled).0
            == SelectionState::Exiting,
{
}

/// An unresolved link ends the session at once with a failure report, and no download.
pub proof fn lemma_missing_link_fails_fast(r: &Ranking, group: usize, file: usize)
    ensures
        transition(r, SelectionState::Downloading { group, file }, SelectionEvent::LinkMissing)
            == (SelectionState::Exiting, SelectionAction::ReportFailure),
{
}

} // verus!
