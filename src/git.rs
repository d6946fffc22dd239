use vstd::prelude::*;

verus! {

/// How a file differs from the state recorded in the repository.
pub enum FileChangeStatus {
    ADDED,
    MODIFIED,
    DELETED,
}

/// A changed file, by its path relative to the repository root.
pub struct FileChange {
    pub path: String,
    pub status: FileChangeStatus,
}

impl FileChangeStatus {
    /// The one-letter code of the status, as `git status --short` shows it.
    pub open spec fn spec_initial(&self) -> char {
        match self {
            FileChangeStatus::ADDED => 'A',
            FileChangeStatus::MODIFIED => 'M',
            FileChangeStatus::DELETED => 'D',
        }
    }

    pub fn initial(&self) -> (r: char)
        ensures
            r == self.spec_initial(),
    {
        match self {
            FileChangeStatus::ADDED => 'A',
            FileChangeStatus::MODIFIED => 'M',
            FileChangeStatus::DELETED => 'D',
        }
    }
}

/// The status flags of one entry of the repository, as plain values: what
/// the index holds against HEAD, and the working tree against the index.
pub struct EntryStatus {
    pub index_new: bool,
    pub index_modified: bool,
    pub index_deleted: bool,
    pub wt_new: bool,
    pub wt_modified: bool,
    pub wt_deleted: bool,
}

pub open spec fn flag_change(flag: bool, s: FileChangeStatus) -> Seq<FileChangeStatus> {
    if flag {
        seq![s]
    } else {
        Seq::empty()
    }
}

/// The changes that one entry reports: staged ones first (added, modified,
/// deleted), then, when asked for, unstaged ones in the same order.
pub open spec fn entry_changes(st: EntryStatus, include_unstaged: bool) -> Seq<FileChangeStatus> {
    let staged = flag_change(st.index_new, FileChangeStatus::ADDED) + flag_change(
        st.index_modified,
        FileChangeStatus::MODIFIED,
    ) + flag_change(st.index_deleted, FileChangeStatus::DELETED);
    if include_unstaged {
        staged + flag_change(st.wt_new, FileChangeStatus::ADDED) + flag_change(
            st.wt_modified,
            FileChangeStatus::MODIFIED,
        ) + flag_change(st.wt_deleted, FileChangeStatus::DELETED)
    } else {
        staged
    }
}

/// `r` lists the changes `e`, all at `path`.
pub open spec fn lists_changes(r: Seq<FileChange>, path: String, e: Seq<FileChangeStatus>) -> bool {
    &&& r.len() == e.len()
    &&& forall|i: int| 0 <= i < r.len() ==> r[i].path == path && r[i].status == e[i]
}

fn push_if(
    out: &mut Vec<FileChange>,
    flag: bool,
    path: &String,
    status: FileChangeStatus,
    Ghost(e): Ghost<Seq<FileChangeStatus>>,
)
    requires
        lists_changes(old(out)@, *path, e),
    ensures
        lists_changes(final(out)@, *path, e + flag_change(flag, status)),
{
    if flag {
        out.push(FileChange { path: path.clone(), status });
        assert(e + flag_change(flag, status) =~= e.push(status));
    } else {
        assert(e + flag_change(flag, status) =~= e);
    }
}

/// The changes of the entry at `path` with status `st`.
pub fn file_changes_of_entry(path: &String, st: &EntryStatus, include_unstaged: bool) -> (r: Vec<
    FileChange,
>)
    ensures
        lists_changes(r@, *path, entry_changes(*st, include_unstaged)),
{
    let mut r: Vec<FileChange> = Vec::new();
    let ghost e0 = Seq::<FileChangeStatus>::empty();
    let ghost e1 = e0 + flag_change(st.index_new, FileChangeStatus::ADDED);
    let ghost e2 = e1 + flag_change(st.index_modified, FileChangeStatus::MODIFIED);
    let ghost e3 = e2 + flag_change(st.index_deleted, FileChangeStatus::DELETED);
    push_if(&mut r, st.index_new, path, FileChangeStatus::ADDED, Ghost(e0));
    push_if(&mut r, st.index_modified, path, FileChangeStatus::MODIFIED, Ghost(e1));
    push_if(&mut r, st.index_deleted, path, FileChangeStatus::DELETED, Ghost(e2));
    assert(e3 =~= flag_change(st.index_new, FileChangeStatus::ADDED) + flag_change(
        st.index_modified,
        FileChangeStatus::MODIFIED,
    ) + flag_change(st.index_deleted, FileChangeStatus::DELETED));
    if include_unstaged {
        let ghost e4 = e3 + flag_change(st.wt_new, FileChangeStatus::ADDED);
        let ghost e5 = e4 + flag_change(st.wt_modified, FileChangeStatus::MODIFIED);
        push_if(&mut r, st.wt_new, path, FileChangeStatus::ADDED, Ghost(e3));
        push_if(&mut r, st.wt_modified, path, FileChangeStatus::MODIFIED, Ghost(e4));
        push_if(&mut r, st.wt_deleted, path, FileChangeStatus::DELETED, Ghost(e5));
    }
    r
}

} // verus!
