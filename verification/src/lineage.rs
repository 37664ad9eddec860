//! The version-controlled experiment log.
//!
//! One working tree, driven through a narrow operation set — init,
//! configure identity, stage-all, commit, branch, checkout, list branches,
//! current commit — records every build attempt as a branch.  The log is
//! append-only: branches are created and checked out, never rewritten.
//!
//! The version-control engine itself is an external collaborator; each
//! call into it stands behind a trusted wrapper whose contract states only
//! what holds of every outcome.

use vstd::prelude::*;
use crate::bytes::{bytes_eq, views_of};

verus! {

#[verifier::external_type_specification]
#[verifier::external_body]
pub struct ExRepository(git2::Repository);

#[verifier::external_type_specification]
#[verifier::external_body]
pub struct ExOid(git2::Oid);

#[verifier::external_type_specification]
#[verifier::external_body]
pub struct ExGitError(git2::Error);

#[verifier::external_type_specification]
#[verifier::external_body]
pub struct ExGitConfig(git2::Config);

/// A lineage operation that failed.
#[derive(Clone, Copy, PartialEq, Eq, Debug)]
pub enum LineageError {
    /// A branch with the requested label already exists.
    LabelCollision,
    /// The requested label resolves to no branch or commit.
    UnknownRef,
    /// Any other failure of the version-control engine.
    Backend,
}

/// The failure kinds the lineage logic tells apart.
enum GitErrorClass {
    Exists,
    NotFound,
    Other,
}

/// Whether a file's status makes it part of the working-tree change to
/// stage: modified, new or deleted files are staged; an ignored path never
/// is, whatever else its status says.
pub fn stage_status(modified: bool, is_new: bool, ignored: bool, deleted: bool) -> (r: i32)
    ensures
        r == if (modified || is_new || deleted) && !ignored {
            0i32
        } else {
            1i32
        },
{
    if (modified || is_new || deleted) && !ignored {
        0
    } else {
        1
    }
}

/// A handle on the working tree's repository.
pub struct Git {
    repository: git2::Repository,
}

impl Git {
    /// Relies on git2::Repository::init: creates or reopens a repository
    /// at the folder.
    #[verifier::external_body]
    pub fn new(folder: &str) -> (r: Result<Git, git2::Error>) {
        Ok(Git { repository: git2::Repository::init(folder)? })
    }

    /// Relies on git2::Config::add_file and set_str: writes the committer
    /// identity into the repository's local configuration.
    #[verifier::external_body]
    pub fn config(&self, user_name: &str, user_email: &str) -> (r: Result<
        git2::Config,
        git2::Error,
    >) {
        let mut conf = git2::Config::new()?;
        let path = self.repository.path().join("config");
        conf.add_file(&path, git2::ConfigLevel::Local, true)?;
        conf.set_str("user.name", user_name)?;
        conf.set_str("user.email", user_email)?;
        Ok(conf)
    }

    /// Relies on git2::Index::add_all, write and write_tree, and on
    /// git2::Repository::status_file for each candidate path: stages every
    /// modified, new or deleted path, ignored paths excluded (per
    /// `stage_status`), and returns the staged tree's id.
    #[verifier::external_body]
    pub fn add_all(&self) -> (r: Result<git2::Oid, git2::Error>) {
        let repo = &self.repository;
        let mut cb = |path: &std::path::Path, _m: &[u8]| -> i32 {
            match repo.status_file(path) {
                Ok(s) => stage_status(s.is_wt_modified(), s.is_wt_new(), s.is_ignored(), s.is_wt_deleted()),
                Err(_) => 1,
            }
        };
        let mut index = self.repository.index()?;
        index.add_all(["*"].iter(), git2::IndexAddOption::FORCE, Some(&mut cb))?;
        index.write()?;
        index.write_tree()
    }

    /// Relies on git2::Repository::commit: commits the tree against the
    /// current HEAD, or as a root commit when HEAD is absent.
    #[verifier::external_body]
    pub fn commit(&self, msg: &str, tree_id: git2::Oid) -> (r: Result<git2::Oid, git2::Error>) {
        let sig = self.repository.signature()?;
        let tree = self.repository.find_tree(tree_id)?;
        match self.repository.head() {
            Ok(h) => {
                let parent = h.peel_to_commit()?;
                self.repository.commit(Some("HEAD"), &sig, &sig, msg, &tree, &[&parent])
            },
            Err(_) => self.repository.commit(Some("HEAD"), &sig, &sig, msg, &tree, &[]),
        }
    }

    /// Relies on git2::Repository::branch with force off: creates a new
    /// branch pointer at the commit, failing when the branch exists.
    #[verifier::external_body]
    pub fn create_branch(&self, branch_name: &[u8], src_commit: git2::Oid) -> (r: Result<
        (),
        git2::Error,
    >) {
        let name = String::from_utf8_lossy(branch_name).into_owned();
        let commit = self.repository.find_commit(src_commit)?;
        self.repository.branch(&name, &commit, false)?;
        Ok(())
    }

    /// Relies on git2::Repository::revparse_ext, checkout_tree and
    /// set_head: checks the named branch or commit out, updating HEAD and
    /// the working tree.
    #[verifier::external_body]
    pub fn checkout(&self, branch: &[u8]) -> (r: Result<(), git2::Error>) {
        let name = String::from_utf8_lossy(branch).into_owned();
        let (object, reference) = self.repository.revparse_ext(&name)?;
        self.repository.checkout_tree(&object, None)?;
        match reference {
            Some(gref) => match gref.name() {
                Ok(n) => self.repository.set_head(n),
                Err(_) => self.repository.set_head_detached(object.id()),
            },
            None => self.repository.set_head_detached(object.id()),
        }
    }

    /// Relies on git2::Reference::peel_to_commit on HEAD: the commit the
    /// working tree currently stands on.
    #[verifier::external_body]
    pub fn get_last_commit(&self) -> (r: Result<git2::Oid, git2::Error>) {
        Ok(self.repository.head()?.peel_to_commit()?.id())
    }

    /// Relies on git2::Repository::workdir: the working tree's path, absent
    /// for a bare repository.
    #[verifier::external_body]
    pub fn get_workdir(&self) -> (r: Option<Vec<u8>>) {
        self.repository.workdir().map(|p| p.display().to_string().into_bytes())
    }

    /// Relies on git2::Repository::branches: the names of all local
    /// branches; a name that is not valid text is skipped.
    #[verifier::external_body]
    pub(crate) fn branches(&self) -> (r: Result<Vec<Vec<u8>>, git2::Error>) {
        let mut names: Vec<Vec<u8>> = Vec::new();
        let mut iter = self.repository.branches(Some(git2::BranchType::Local))?;
        loop {
            match iter.next() {
                Some(Ok((branch, _k))) => if let Ok(Some(n)) = branch.name() {
                    names.push(n.as_bytes().to_vec());
                },
                Some(Err(e)) => return Err(e),
                None => return Ok(names),
            }
        }
    }
}

/// Relies on git2::Error::code to tell a collision and a missing ref apart
/// from any other failure.
#[verifier::external_body]
fn error_class(e: &git2::Error) -> (r: GitErrorClass) {
    match e.code() {
        git2::ErrorCode::Exists => GitErrorClass::Exists,
        git2::ErrorCode::NotFound => GitErrorClass::NotFound,
        _ => GitErrorClass::Other,
    }
}

/// Stages every tracked and untracked, non-ignored change and commits it.
/// Committing with no changes is tolerated: the commit then simply repeats
/// the previous tree.
pub fn snapshot_all(git: &Git, msg: &str) -> (r: Result<git2::Oid, LineageError>)
    ensures
        r matches Err(e) ==> e is Backend,
{
    let tree = match git.add_all() {
        Ok(t) => t,
        Err(_) => {
            return Err(LineageError::Backend);
        },
    };
    match git.commit(msg, tree) {
        Ok(oid) => Ok(oid),
        Err(_) => Err(LineageError::Backend),
    }
}

/// Initializes the lineage: configures a fixed committer identity, so
/// commits are attributable and reproducible, and snapshots the pristine
/// source as the initial commit.
pub fn init_lineage(git: &Git) -> (r: Result<git2::Oid, LineageError>)
    ensures
        r matches Err(e) ==> e is Backend,
{
    match git.config("Tux", "Tux") {
        Ok(_) => (),
        Err(_) => {
            return Err(LineageError::Backend);
        },
    };
    snapshot_all(git, "source")
}

/// Creates a new branch pointer carrying `label` at `commit`, without
/// checking it out.  A label that already names a branch is a collision.
pub fn branch_from(git: &Git, label: &[u8], commit: git2::Oid) -> (r: Result<(), LineageError>)
    ensures
        r matches Err(e) ==> (e is LabelCollision || e is Backend),
{
    match git.create_branch(label, commit) {
        Ok(_) => Ok(()),
        Err(e) => match error_class(&e) {
            GitErrorClass::Exists => Err(LineageError::LabelCollision),
            GitErrorClass::NotFound => Err(LineageError::Backend),
            GitErrorClass::Other => Err(LineageError::Backend),
        },
    }
}

/// Checks the build labelled `label` out.  A label that resolves to no
/// branch or commit is unknown.
pub fn checkout_label(git: &Git, label: &[u8]) -> (r: Result<(), LineageError>)
    ensures
        r matches Err(e) ==> (e is UnknownRef || e is Backend),
{
    match git.checkout(label) {
        Ok(_) => Ok(()),
        Err(e) => match error_class(&e) {
            GitErrorClass::NotFound => Err(LineageError::UnknownRef),
            GitErrorClass::Exists => Err(LineageError::Backend),
            GitErrorClass::Other => Err(LineageError::Backend),
        },
    }
}

/// The commit the working tree currently stands on.
pub fn head_commit(git: &Git) -> (r: Result<git2::Oid, LineageError>)
    ensures
        r matches Err(e) ==> e is Backend,
{
    match git.get_last_commit() {
        Ok(oid) => Ok(oid),
        Err(_) => Err(LineageError::Backend),
    }
}

/// `"master"`: the default branch, which records no build attempt.
pub open spec fn spec_default_branch() -> Seq<u8> {
    seq![109u8, 97u8, 115u8, 116u8, 101u8, 114u8]
}

/// Builds `"master"` as bytes.
pub fn default_branch() -> (r: Vec<u8>)
    ensures
        r@ == spec_default_branch(),
{
    let mut r: Vec<u8> = Vec::new();
    r.push(109);
    r.push(97);
    r.push(115);
    r.push(116);
    r.push(101);
    r.push(114);
    proof {
        assert(r@ =~= spec_default_branch());
    }
    r
}

/// The branch names with the default branch dropped, order kept.
pub open spec fn spec_exclude_default(names: Seq<Seq<u8>>) -> Seq<Seq<u8>>
    decreases names.len(),
{
    if names.len() == 0 {
        Seq::empty()
    } else {
        let rest = spec_exclude_default(names.drop_last());
        if names.last() == spec_default_branch() {
            rest
        } else {
            rest.push(names.last())
        }
    }
}

/// Drops the default branch from a branch list, keeping the order: only
/// build-attempt branches remain.
pub fn exclude_default(names: Vec<Vec<u8>>) -> (r: Vec<Vec<u8>>)
    ensures
        views_of(r@) == spec_exclude_default(views_of(names@)),
{
    let ghost nviews = views_of(names@);
    let master = default_branch();
    let mut r: Vec<Vec<u8>> = Vec::new();
    let mut i: usize = 0;
    proof {
        assert(views_of(r@) =~= spec_exclude_default(nviews.subrange(0, 0)));
    }
    while i < names.len()
        invariant
            i <= names@.len(),
            nviews == views_of(names@),
            master@ == spec_default_branch(),
            views_of(r@) == spec_exclude_default(nviews.subrange(0, i as int)),
        decreases names@.len() - i,
    {
        let ghost prefix = nviews.subrange(0, i as int);
        let ghost next = nviews.subrange(0, i + 1);
        proof {
            assert(next.drop_last() =~= prefix);
            assert(next.last() == nviews[i as int]);
        }
        if !bytes_eq(names[i].as_slice(), master.as_slice()) {
            let name = crate::bytes::to_vec(names[i].as_slice());
            proof {
                assert(views_of(r@.push(name)) =~= views_of(r@).push(name@));
            }
            r.push(name);
        }
        i += 1;
    }
    proof {
        assert(nviews.subrange(0, names@.len() as int) =~= nviews);
    }
    r
}

/// Nothing that the exclusion keeps is the default branch.
pub proof fn lemma_exclude_default_excludes(names: Seq<Seq<u8>>)
    ensures
        forall|i: int|
            0 <= i < spec_exclude_default(names).len() ==> #[trigger] spec_exclude_default(
                names,
            )[i] != spec_default_branch(),
    decreases names.len(),
{
    if names.len() > 0 {
        lemma_exclude_default_excludes(names.drop_last());
        let rest = spec_exclude_default(names.drop_last());
        if names.last() != spec_default_branch() {
            assert forall|i: int|
                0 <= i < spec_exclude_default(names).len() implies #[trigger] spec_exclude_default(
                names,
            )[i] != spec_default_branch() by {
                if i < rest.len() {
                    assert(spec_exclude_default(names)[i] == rest[i]);
                }
            }
        }
    }
}

/// The labels of every recorded build attempt: all branches but the
/// default one, which is never among them.
pub fn list_branches(git: &Git) -> (r: Result<Vec<Vec<u8>>, LineageError>)
    ensures
        r matches Err(e) ==> e is Backend,
        r matches Ok(names) ==> forall|i: int|
            0 <= i < names@.len() ==> (#[trigger] names@[i])@ != spec_default_branch(),
{
    match git.branches() {
        Ok(names) => {
            let ghost nv = views_of(names@);
            let kept = exclude_default(names);
            proof {
                lemma_exclude_default_excludes(nv);
                assert forall|i: int| 0 <= i < kept@.len() implies (#[trigger] kept@[i])@
                    != spec_default_branch() by {
                    assert(views_of(kept@)[i] == kept@[i]@);
                }
            }
            Ok(kept)
        },
        Err(_) => Err(LineageError::Backend),
    }
}

} // verus!
