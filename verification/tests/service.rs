use std::collections::{BTreeMap, BTreeSet, HashMap};

use gix_object::bstr::BString;
use gix_object::WriteTo;

use ragfs_git::commit::{CommitFinish, CommitHead, CommitScope, PathState};
use ragfs_git::error::{FsError, GitError, ObjectStoreError, RefStoreError};
use ragfs_git::object::{load_commit_meta, parse_object_header, read_blob_payload, CommitMeta};
use ragfs_git::oid::ObjectId;
use ragfs_git::resolve::{OidSearch, RefTarget, SearchStep};
use ragfs_git::restore::{delete_outcome, prune_decision, RestoreDecision};
use ragfs_git::service::GitService;
use ragfs_git::show::{named_commit, ShowNext};
use ragfs_git::sorted::SortedMap;
use ragfs_git::tree_builder::{EntryKind, TreeEditor, TreeEntries, TreeEntry};
use ragfs_git::types::{
    CommitRequest, CommitResponse, RestoreRequest, RestoreResponse, ShowRequest, ShowResponse,
};

// ── Conversions ────────────────────────────────────────────────────────

fn from_gix(oid: gix_hash::ObjectId) -> ObjectId {
    let gix_hash::ObjectId::Sha1(bytes) = oid;
    ObjectId { bytes }
}

fn to_gix(oid: ObjectId) -> gix_hash::ObjectId {
    gix_hash::ObjectId::Sha1(oid.bytes)
}

fn kind_of(mode: gix_object::tree::EntryMode) -> EntryKind {
    match mode.kind() {
        gix_object::tree::EntryKind::Tree => EntryKind::Tree,
        gix_object::tree::EntryKind::Blob => EntryKind::Blob,
        gix_object::tree::EntryKind::BlobExecutable => EntryKind::BlobExecutable,
        gix_object::tree::EntryKind::Link => EntryKind::Link,
        gix_object::tree::EntryKind::Commit => EntryKind::Commit,
    }
}

fn mode_of(kind: EntryKind) -> gix_object::tree::EntryMode {
    match kind {
        EntryKind::Tree => gix_object::tree::EntryKind::Tree.into(),
        EntryKind::Blob => gix_object::tree::EntryKind::Blob.into(),
        EntryKind::BlobExecutable => gix_object::tree::EntryKind::BlobExecutable.into(),
        EntryKind::Link => gix_object::tree::EntryKind::Link.into(),
        EntryKind::Commit => gix_object::tree::EntryKind::Commit.into(),
    }
}

fn empty_tree() -> ObjectId {
    from_gix(gix_hash::ObjectId::empty_tree(gix_hash::Kind::Sha1))
}

fn bogus_oid() -> ObjectId {
    ObjectId::from_hex(b"deadbeefdeadbeefdeadbeefdeadbeefdeadbeef").unwrap()
}

// ── An account in memory ───────────────────────────────────────────────

/// The working tree, the objects and the refs of one account.
struct Repo {
    account: String,
    files: BTreeMap<String, Vec<u8>>,
    dirs: BTreeSet<String>,
    strict_remove: bool,
    objects: HashMap<[u8; 20], Vec<u8>>,
    refs: BTreeMap<String, ObjectId>,
    /// The value that the next update of a ref pretends to find.
    conflict: Option<ObjectId>,
    removed_dirs: Vec<String>,
}

impl Repo {
    fn new(account: &str) -> Repo {
        Repo {
            account: account.to_string(),
            files: BTreeMap::new(),
            dirs: BTreeSet::new(),
            strict_remove: false,
            objects: HashMap::new(),
            refs: BTreeMap::new(),
            conflict: None,
            removed_dirs: Vec::new(),
        }
    }

    fn abs(&self, rel: &str) -> String {
        format!("/local/{}/{}", self.account, rel)
    }

    fn put(&mut self, rel: &str, data: &[u8]) {
        let abs = self.abs(rel);
        let mut at = abs.as_str();
        while let Some(i) = at.rfind('/') {
            at = &at[..i];
            self.dirs.insert(at.to_string());
        }
        self.files.insert(abs, data.to_vec());
    }

    fn delete(&mut self, rel: &str) {
        let abs = self.abs(rel);
        self.files.remove(&abs);
    }

    fn read(&self, abs: &str) -> Result<Vec<u8>, FsError> {
        match self.files.get(abs) {
            Some(bytes) => Ok(bytes.clone()),
            None => Err(FsError::NotFound(abs.to_string())),
        }
    }

    fn remove(&mut self, abs: &str) -> Result<(), FsError> {
        let existed = self.files.remove(abs).is_some() || self.dirs.remove(abs);
        if self.strict_remove && !existed {
            return Err(FsError::NotFound(abs.to_string()));
        }
        Ok(())
    }

    fn read_dir(&self, abs: &str) -> Result<usize, FsError> {
        if !self.dirs.contains(abs) {
            return Err(FsError::NotFound(abs.to_string()));
        }
        let prefix = format!("{abs}/");
        let files = self.files.keys().filter(|p| p.starts_with(&prefix)).count();
        let dirs = self.dirs.iter().filter(|p| p.starts_with(&prefix)).count();
        Ok(files + dirs)
    }

    fn collect_all(&self) -> Vec<String> {
        let prefix = format!("/local/{}/", self.account);
        self.files.keys().filter_map(|p| p.strip_prefix(&prefix).map(|r| r.to_string())).collect()
    }

    // Objects.

    fn write_object(&mut self, kind: gix_object::Kind, payload: &[u8]) -> ObjectId {
        let oid = from_gix(gix_object::compute_hash(gix_hash::Kind::Sha1, kind, payload));
        let mut raw = gix_object::encode::loose_header(kind, payload.len() as u64).to_vec();
        raw.extend_from_slice(payload);
        self.objects.insert(oid.bytes, raw);
        oid
    }

    fn read_object(&self, oid: &ObjectId) -> Result<Vec<u8>, GitError> {
        match self.objects.get(&oid.bytes) {
            Some(raw) => Ok(raw.clone()),
            None => Err(GitError::ObjectStore(ObjectStoreError::NotFound(*oid))),
        }
    }

    fn meta(&self, oid: &ObjectId) -> Result<CommitMeta, GitError> {
        load_commit_meta(&self.read_object(oid)?)
    }

    fn tree_entries(&self, tree: ObjectId) -> Result<Vec<(String, ObjectId, EntryKind)>, GitError> {
        let raw = self.read_object(&tree)?;
        let (_, _, at) = parse_object_header(&raw)?;
        let parsed = gix_object::TreeRef::from_bytes(&raw[at..])
            .map_err(|e| GitError::Other(format!("tree decode: {e}")))?;
        Ok(parsed
            .entries
            .iter()
            .map(|e| {
                (e.filename.to_string(), from_gix(e.oid.to_owned()), kind_of(e.mode))
            })
            .collect())
    }

    fn lookup(&self, tree: ObjectId, path: &str) -> Result<Option<(ObjectId, EntryKind)>, GitError> {
        if path.is_empty() {
            return Err(GitError::Other("empty path".to_string()));
        }
        let mut current = tree;
        let parts: Vec<&str> = path.split('/').collect();
        for (i, part) in parts.iter().enumerate() {
            if part.is_empty() {
                return Err(GitError::Other("empty path component".to_string()));
            }
            let entries = self.tree_entries(current)?;
            match entries.into_iter().find(|(name, _, _)| name == part) {
                None => return Ok(None),
                Some((_, oid, kind)) => {
                    if i + 1 == parts.len() {
                        return Ok(Some((oid, kind)));
                    }
                    if kind != EntryKind::Tree {
                        return Ok(None);
                    }
                    current = oid;
                }
            }
        }
        Ok(None)
    }

    fn flatten(&self, tree: ObjectId) -> Result<Vec<(String, ObjectId)>, GitError> {
        let mut out = Vec::new();
        for (name, oid, kind) in self.tree_entries(tree)? {
            if kind == EntryKind::Tree {
                for (inner, blob) in self.flatten(oid)? {
                    out.push((format!("{name}/{inner}"), blob));
                }
            } else {
                out.push((name, oid));
            }
        }
        Ok(out)
    }

    fn load_dir(&self, tree: ObjectId, prefix: &str, editor: &mut TreeEditor) -> Result<TreeEntries, GitError> {
        let mut entries: TreeEntries = SortedMap::new();
        for (name, oid, mode) in self.tree_entries(tree)? {
            if mode == EntryKind::Tree {
                let key = if prefix.is_empty() { name.clone() } else { format!("{prefix}/{name}") };
                let inner = self.load_dir(oid, &key, editor)?;
                editor.subtrees.insert(key, inner);
            }
            entries.insert(name.clone(), TreeEntry { mode, filename: name, oid });
        }
        Ok(entries)
    }

    fn load_editor(&self, tree: ObjectId) -> Result<TreeEditor, GitError> {
        let mut editor = TreeEditor::empty();
        let root = self.load_dir(tree, "", &mut editor)?;
        editor.root = root;
        Ok(editor)
    }

    fn write_dir(&mut self, editor: &TreeEditor, entries: &TreeEntries, prefix: &str) -> (ObjectId, usize) {
        let mut tree = gix_object::Tree::empty();
        for i in 0..entries.len() {
            let (name, entry) = entries.entry_at(i);
            let key = if prefix.is_empty() { name.clone() } else { format!("{prefix}/{name}") };
            let mut oid = entry.oid;
            if entry.mode == EntryKind::Tree {
                if let Some(inner) = editor.subtrees.get(&key) {
                    let (written, count) = self.write_dir(editor, inner, &key);
                    if count == 0 {
                        continue;
                    }
                    oid = written;
                }
            }
            tree.entries.push(gix_object::tree::Entry {
                mode: mode_of(entry.mode),
                filename: name.as_str().into(),
                oid: to_gix(oid),
            });
        }
        tree.entries.sort();
        let count = tree.entries.len();
        let mut buf = Vec::new();
        tree.write_to(&mut buf).unwrap();
        (self.write_object(gix_object::Kind::Tree, &buf), count)
    }

    fn write_tree(&mut self, editor: &TreeEditor) -> ObjectId {
        self.write_dir(editor, &editor.root, "").0
    }

    fn write_commit(&mut self, tree: ObjectId, parents: &[ObjectId], name: &str, email: &str, message: &str) -> ObjectId {
        let who = gix_actor::Signature {
            name: name.into(),
            email: email.into(),
            time: gix_object::date::Time { seconds: 0, offset: 0, sign: gix_object::date::time::Sign::Plus },
        };
        self.write_signed(tree, parents, who.clone(), who, message)
    }

    fn write_signed(
        &mut self,
        tree: ObjectId,
        parents: &[ObjectId],
        author: gix_actor::Signature,
        committer: gix_actor::Signature,
        message: &str,
    ) -> ObjectId {
        let commit = gix_object::Commit {
            tree: to_gix(tree),
            parents: parents.iter().map(|p| to_gix(*p)).collect(),
            author,
            committer,
            encoding: None,
            message: BString::from(message),
            extra_headers: Vec::new(),
        };
        let mut buf = Vec::new();
        commit.write_to(&mut buf).unwrap();
        self.write_object(gix_object::Kind::Commit, &buf)
    }

    // Refs.

    fn read_ref(&self, name: &str) -> Result<ObjectId, RefStoreError> {
        match self.refs.get(name) {
            Some(oid) => Ok(*oid),
            None => Err(RefStoreError::NotFound(name.to_string())),
        }
    }

    fn cas_update(&mut self, name: &str, expected: Option<ObjectId>, new: ObjectId) -> Result<(), RefStoreError> {
        if let Some(actual) = self.conflict.take() {
            return Err(RefStoreError::Conflict { expected, actual: Some(actual) });
        }
        let actual = self.refs.get(name).copied();
        if actual != expected {
            return Err(RefStoreError::Conflict { expected, actual });
        }
        self.refs.insert(name.to_string(), new);
        Ok(())
    }

    // Operations.

    fn resolve(&self, target: &RefTarget) -> Result<ObjectId, GitError> {
        match target {
            RefTarget::Oid(oid) => Ok(*oid),
            RefTarget::Name(name) => named_commit(self.read_ref(name)),
            RefTarget::Abbreviated(prefix) => {
                let mut search = OidSearch::start(prefix, self.refs.values().copied().collect());
                loop {
                    match search.next() {
                        SearchStep::Done(result) => return result,
                        SearchStep::Load(load) => {
                            let meta = self.meta(&load.oid);
                            search = load.loaded(meta)?;
                        }
                    }
                }
            }
        }
    }

    fn commit(&mut self, req: CommitRequest) -> Result<CommitResponse, GitError> {
        let service = GitService::new((), (), ());
        let start = service.commit(req);
        let head = self.read_ref(&start.context.ref_name);
        let mut prev_tree = None;
        let base = match start.head(head)? {
            CommitHead::Root(base) => base,
            CommitHead::Parent(parent) => {
                let raw = self.read_object(&parent.head);
                let tree = parent.commit_object(raw)?;
                prev_tree = Some(tree.tree);
                let editor = self.load_editor(tree.tree);
                tree.loaded(editor)?
            }
        };
        let ignore = self.read(&base.ignore_path());
        let scope = base.ignore_file(ignore)?;
        let previous = match prev_tree {
            Some(tree) => self.flatten(tree)?.into_iter().map(|(p, _)| p).collect(),
            None => Vec::new(),
        };
        let mut work = match scope {
            CommitScope::Scoped(scoped) => scoped.previous(previous)?,
            CommitScope::Full(listing) => listing.listed(self.collect_all(), previous)?,
        };
        while let (Some(rel), Some(abs)) = (work.path(), work.absolute_path()) {
            let looked_up = match prev_tree {
                Some(tree) => self.lookup(tree, &rel).map(|e| e.map(|(oid, _)| oid)),
                None => Ok(None),
            };
            let state = if self.dirs.contains(&abs) && !self.files.contains_key(&abs) {
                PathState::Directory
            } else {
                match (self.read(&abs), looked_up) {
                    (Ok(bytes), Ok(previous)) => {
                        let oid = self.write_object(gix_object::Kind::Blob, &bytes);
                        PathState::File { oid, previous }
                    }
                    (Err(FsError::NotFound(_)), Ok(previous)) => PathState::Missing { previous },
                    (Err(e), _) => PathState::Failed(GitError::Vfs(e)),
                    (_, Err(e)) => PathState::Failed(e),
                }
            };
            work = work.record(state)?;
        }
        let write = match work.finish() {
            CommitFinish::Unchanged(response) => return Ok(response),
            CommitFinish::Changed(write) => write,
        };
        let tree = self.write_tree(&write.editor);
        let record = write.tree_written(Ok(tree))?;
        let oid = self.write_commit(
            record.tree,
            &record.parents,
            &record.context.author_name,
            &record.context.author_email,
            &record.context.message,
        );
        let update = record.commit_written(Ok(oid))?;
        let outcome = self.cas_update(&update.context.ref_name, update.expected, update.new);
        update.updated(outcome)
    }

    fn show(&self, target_ref: &str, path: Option<&str>) -> Result<ShowResponse, GitError> {
        let service = GitService::new((), (), ());
        let start = service.show(ShowRequest {
            account: self.account.clone(),
            target_ref: target_ref.to_string(),
            path: path.map(|p| p.to_string()),
        })?;
        let oid = self.resolve(&start.target);
        let commit = start.resolved(oid)?;
        let raw = self.read_object(&commit.commit);
        match commit.commit_object(raw)? {
            ShowNext::Done(response) => Ok(response),
            ShowNext::Path(path) => {
                let entry = self.lookup(path.tree, &path.path);
                let blob = path.looked_up(entry)?;
                let raw = self.read_object(&blob.blob);
                blob.blob_object(raw)
            }
        }
    }

    fn restore(&mut self, req: RestoreRequest) -> Result<RestoreResponse, GitError> {
        let service = GitService::new((), (), ());
        let start = service.restore(req)?;
        let source = self.resolve(&start.target);
        let at_head = start.resolved(source)?;
        let head = self.read_ref(&at_head.context.ref_name);
        let commits = at_head.head(head)?;
        let raw = self.read_object(&commits.source);
        let parent = commits.source_object(raw)?;
        let raw = self.read_object(&parent.head);
        let trees = parent.head_object(raw)?;
        let entry = self.lookup(trees.source_tree, &trees.context.project_dir);
        let subtree = trees.source_entry(entry)?;
        let entry = self.lookup(subtree.head_tree, &subtree.context.project_dir);
        let files = subtree.head_entry(entry)?;
        let source_list = self.flatten(files.source_subtree)?;
        let head_list = match files.head_subtree {
            Some(oid) => self.flatten(oid)?,
            None => Vec::new(),
        };
        let apply = match files.flattened(source_list, head_list) {
            RestoreDecision::Done(response) => return Ok(response),
            RestoreDecision::Apply(apply) => apply,
        };
        for (i, abs) in apply.writes().into_iter().enumerate() {
            let raw = self.read_object(&apply.diff.to_write[i].1)?;
            let bytes = read_blob_payload(&raw)?;
            self.files.insert(abs, bytes);
        }
        for abs in apply.deletes() {
            let removed = self.remove(&abs);
            delete_outcome(removed)?;
        }
        for abs in apply.prunes() {
            if prune_decision(self.read_dir(&abs)) {
                let _ = self.remove(&abs);
                self.removed_dirs.push(abs);
            }
        }
        let editor = self.load_editor(apply.head_tree);
        let write = apply.loaded(editor)?;
        let tree = self.write_tree(&write.editor);
        let record = write.tree_written(Ok(tree))?;
        let oid = self.write_commit(
            record.tree,
            &record.parents,
            &record.context.author_name,
            &record.context.author_email,
            &record.message,
        );
        let update = record.commit_written(Ok(oid))?;
        let outcome = self.cas_update(&update.context.ref_name, Some(update.head), update.new);
        update.updated(outcome)
    }

    // Shorthands.

    fn make_commit(&mut self, branch: &str, message: &str) -> ObjectId {
        let account = self.account.clone();
        created(self.commit(req(&account, branch, message, None)).unwrap())
    }

    fn commit_tree(&self, oid: ObjectId) -> ObjectId {
        self.meta(&oid).unwrap().tree
    }

    fn commit_parents(&self, oid: ObjectId) -> Vec<ObjectId> {
        self.meta(&oid).unwrap().parents
    }

    fn paths_of(&self, commit: ObjectId) -> Vec<String> {
        self.flatten(self.commit_tree(commit)).unwrap().into_iter().map(|(p, _)| p).collect()
    }

    fn file(&self, rel: &str) -> Option<&Vec<u8>> {
        self.files.get(&self.abs(rel))
    }
}

fn req(account: &str, branch: &str, message: &str, paths: Option<Vec<String>>) -> CommitRequest {
    CommitRequest {
        account: account.to_string(),
        branch: branch.to_string(),
        message: message.to_string(),
        paths,
        author_name: "tester".to_string(),
        author_email: "tester@example.com".to_string(),
    }
}

fn restore_req(project_dir: &str, source_commit: &str, dry_run: bool, message: Option<&str>) -> RestoreRequest {
    RestoreRequest {
        account: "acct".into(),
        branch: "main".into(),
        project_dir: project_dir.into(),
        source_commit: source_commit.into(),
        dry_run,
        message: message.map(|m| m.to_string()),
        author_name: "tester".into(),
        author_email: "tester@example.com".into(),
    }
}

fn restore_req_as_x(project_dir: &str, source_commit: &str, dry_run: bool, message: Option<&str>) -> RestoreRequest {
    let mut req = restore_req(project_dir, source_commit, dry_run, message);
    req.author_name = "x".into();
    req.author_email = "x@x".into();
    req
}

/// How many paths changed, and how many the ignore file left out.
fn counts(response: &CommitResponse) -> (usize, usize) {
    match response {
        CommitResponse::Created { changed, ignored, .. } => (*changed, *ignored),
        CommitResponse::Noop { ignored, .. } => (0, *ignored),
    }
}

fn created(response: CommitResponse) -> ObjectId {
    match response {
        CommitResponse::Created { commit_oid, .. } => commit_oid,
        other => panic!("expected Created, got {other:?}"),
    }
}

fn paths(list: &[&str]) -> Option<Vec<String>> {
    Some(list.iter().map(|p| p.to_string()).collect())
}

// ── Commit ─────────────────────────────────────────────────────────────

#[test]
fn test_commit_first_creates_root_commit() {
    let mut repo = Repo::new("acct");
    repo.put("resources/a.md", b"hello");

    let resp = repo.commit(req("acct", "main", "first", None)).unwrap();

    match resp {
        CommitResponse::Created { commit_oid, changed, .. } => {
            assert!(changed >= 1, "should record at least one change");
            assert!(repo.commit_parents(commit_oid).is_empty(), "root commit must have no parents");
            assert_ne!(repo.commit_tree(commit_oid), empty_tree());
            let head = repo.read_ref("refs/heads/main").unwrap();
            assert_eq!(head, commit_oid);
        }
        other => panic!("expected Created, got {other:?}"),
    }
}

#[test]
fn test_commit_second_links_to_first() {
    let mut repo = Repo::new("acct");
    repo.put("resources/a.md", b"hello");
    let first_oid = created(repo.commit(req("acct", "main", "first", None)).unwrap());

    repo.put("resources/a.md", b"world");
    let second_oid = created(repo.commit(req("acct", "main", "second", None)).unwrap());

    assert_eq!(repo.commit_parents(second_oid), vec![first_oid]);
}

#[test]
fn test_commit_noop_when_nothing_changed() {
    let mut repo = Repo::new("acct");
    repo.put("resources/a.md", b"hello");
    let first_oid = created(repo.commit(req("acct", "main", "first", None)).unwrap());

    let second = repo.commit(req("acct", "main", "noop", None)).unwrap();
    match second {
        CommitResponse::Noop { commit_oid, .. } => assert_eq!(commit_oid, first_oid),
        other => panic!("expected Noop, got {other:?}"),
    }
    assert_eq!(repo.read_ref("refs/heads/main").unwrap(), first_oid);
}

#[test]
fn test_commit_handles_deletes() {
    let mut repo = Repo::new("acct");
    repo.put("resources/a.md", b"hello");
    repo.put("resources/b.md", b"world");
    repo.commit(req("acct", "main", "first", None)).unwrap();

    repo.delete("resources/a.md");
    let second_oid =
        created(repo.commit(req("acct", "main", "delete-a", paths(&["resources/a.md"]))).unwrap());

    assert_eq!(repo.paths_of(second_oid), vec!["resources/b.md".to_string()]);
}

#[test]
fn test_commit_with_explicit_paths_skips_others() {
    let mut repo = Repo::new("acct");
    repo.put("resources/a.md", b"A");
    repo.put("resources/b.md", b"B");
    repo.put("resources/c.md", b"C");

    let oid = created(repo.commit(req("acct", "main", "only-a", paths(&["resources/a.md"]))).unwrap());

    assert_eq!(repo.paths_of(oid), vec!["resources/a.md".to_string()]);
    let found = repo.lookup(repo.commit_tree(oid), "resources/a.md").unwrap();
    assert!(found.is_some());
}

#[test]
fn test_commit_cas_conflict_surfaces_as_error() {
    let mut repo = Repo::new("acct");
    let bogus = bogus_oid();
    repo.conflict = Some(bogus);
    repo.put("resources/a.md", b"hello");

    let result = repo.commit(req("acct", "main", "boom", None));
    match result {
        Err(GitError::ConcurrentCommit { ref_name, expected, actual }) => {
            assert_eq!(ref_name, "refs/heads/main");
            assert_eq!(expected, None);
            assert_eq!(actual, Some(bogus));
        }
        other => panic!("expected ConcurrentCommit, got {other:?}"),
    }
}

#[test]
fn test_commit_incremental_reuses_unchanged_subtree_oids() {
    let mut repo = Repo::new("acct");
    repo.put("resources/a.md", b"hello");
    repo.put("agent/b.py", b"print('hi')");

    let first_oid = created(repo.commit(req("acct", "main", "first", None)).unwrap());
    let first_tree = repo.commit_tree(first_oid);
    let agent_first =
        repo.lookup(first_tree, "agent").unwrap().expect("agent subtree must exist after first commit");
    assert_eq!(agent_first.1, EntryKind::Tree, "agent entry must be a tree");

    repo.put("resources/a.md", b"world");
    let second_oid = created(repo.commit(req("acct", "main", "second", None)).unwrap());
    let second_tree = repo.commit_tree(second_oid);
    assert_ne!(first_tree, second_tree, "root tree must change because resources/a.md changed");
    let agent_second =
        repo.lookup(second_tree, "agent").unwrap().expect("agent subtree must still exist after second commit");

    assert_eq!(agent_first.0, agent_second.0, "unchanged agent/ subtree OID must be reused across commits");
}

#[test]
fn test_commit_skips_pruned_paths() {
    let mut repo = Repo::new("acct");
    repo.put("resources/a.md", b"hello");
    repo.put("resources/x.faiss", b"FAISS");
    repo.put("_system/lock", b"L");

    let oid = created(repo.commit(req("acct", "main", "filtered", None)).unwrap());

    assert_eq!(repo.paths_of(oid), vec!["resources/a.md".to_string()]);
}

// ── Show ───────────────────────────────────────────────────────────────

#[test]
fn test_show_commit_meta_by_oid() {
    let mut repo = Repo::new("acct");
    repo.put("resources/a.md", b"hello");
    let oid = repo.make_commit("main", "first");

    let resp = repo.show(&oid.to_hex(), None).unwrap();

    match resp {
        ShowResponse::Commit { oid: returned, parents, message, author, committer, tree } => {
            assert_eq!(returned, oid);
            assert!(parents.is_empty(), "root commit");
            assert_eq!(message, "first");
            assert_eq!(author.name, "tester");
            assert_eq!(author.email, "tester@example.com");
            assert_eq!(committer.name, "tester");
            assert_ne!(tree, empty_tree());
        }
        other => panic!("expected Commit, got {other:?}"),
    }
}

#[test]
fn test_show_resolves_branch_name_and_full_ref() {
    let mut repo = Repo::new("acct");
    repo.put("resources/a.md", b"hello");
    let oid = repo.make_commit("main", "first");

    for tref in ["main", "refs/heads/main"] {
        match repo.show(tref, None).unwrap() {
            ShowResponse::Commit { oid: returned, .. } => assert_eq!(returned, oid),
            other => panic!("{tref}: expected Commit, got {other:?}"),
        }
    }
}

#[test]
fn test_show_resolves_short_oid_unique() {
    let mut repo = Repo::new("acct");
    repo.put("resources/a.md", b"hello");
    let oid = repo.make_commit("main", "first");
    let full = oid.to_hex();

    for len in [4usize, 7, 12, 39] {
        let short = &full[..len];
        let resp = repo
            .show(short, None)
            .unwrap_or_else(|e| panic!("short oid {short} (len {len}) should resolve, got {e:?}"));
        match resp {
            ShowResponse::Commit { oid: returned, .. } => assert_eq!(returned, oid),
            other => panic!("len {len}: expected Commit, got {other:?}"),
        }
    }
}

#[test]
fn test_show_short_oid_not_found_distinguished_from_branch() {
    let mut repo = Repo::new("acct");
    repo.put("resources/a.md", b"hello");
    repo.make_commit("main", "first");

    let bogus = "ffff";
    let err = repo.show(bogus, None).unwrap_err();
    match err {
        GitError::OidPrefixNotFound { prefix } => assert_eq!(prefix, bogus),
        other => panic!("expected OidPrefixNotFound({bogus}), got {other:?}"),
    }
}

#[test]
fn test_short_oid_three_chars_falls_through_to_ref_lookup() {
    let mut repo = Repo::new("acct");
    repo.put("resources/a.md", b"hello");
    repo.make_commit("main", "first");

    let err = repo.show("abc", None).unwrap_err();
    assert!(
        matches!(err, GitError::RefStore(RefStoreError::NotFound(_))),
        "expected RefStore::NotFound for 3-char input, got {err:?}",
    );
}

#[test]
fn test_show_blob_round_trip() {
    let mut repo = Repo::new("acct");
    let body = b"hello world\n";
    repo.put("resources/a.md", body);
    repo.make_commit("main", "first");

    match repo.show("main", Some("resources/a.md")).unwrap() {
        ShowResponse::Blob { bytes, size, oid: _ } => {
            assert_eq!(bytes, body);
            assert_eq!(size, body.len() as u64);
        }
        other => panic!("expected Blob, got {other:?}"),
    }
}

#[test]
fn test_show_blob_path_not_found() {
    let mut repo = Repo::new("acct");
    repo.put("resources/a.md", b"x");
    repo.make_commit("main", "first");

    match repo.show("main", Some("resources/missing.md")).unwrap_err() {
        GitError::PathNotFound(p) => assert_eq!(p, "resources/missing.md"),
        other => panic!("expected PathNotFound, got {other:?}"),
    }
}

#[test]
fn test_show_blob_rejects_directory_path() {
    let mut repo = Repo::new("acct");
    repo.put("resources/a.md", b"x");
    repo.make_commit("main", "first");

    match repo.show("main", Some("resources")).unwrap_err() {
        GitError::PathIsDirectory(p) => assert_eq!(p, "resources"),
        other => panic!("expected PathIsDirectory, got {other:?}"),
    }
}

#[test]
fn test_show_unknown_ref() {
    let repo = Repo::new("acct");
    match repo.show("nonexistent", None).unwrap_err() {
        GitError::RefStore(RefStoreError::NotFound(name)) => {
            assert_eq!(name, "refs/heads/nonexistent");
        }
        other => panic!("expected RefStore NotFound, got {other:?}"),
    }
}

#[test]
fn test_show_malformed_oid_input() {
    let repo = Repo::new("acct");
    let err = repo.show(&"z".repeat(40), None).unwrap_err();
    assert!(matches!(err, GitError::Other(_) | GitError::RefStore(_)));
}

#[test]
fn test_show_blob_binary_and_multiline() {
    let mut repo = Repo::new("acct");
    let body: Vec<u8> = vec![
        b'h', b'i', 0x00, 0xC3, 0x28, b'\r', b'\n', b'l', b'i', b'n', b'e', b'2', b'\n', 0xFF, 0xFE,
        0xFD,
    ];
    repo.put("resources/bin.dat", &body);
    repo.make_commit("main", "first");

    match repo.show("main", Some("resources/bin.dat")).unwrap() {
        ShowResponse::Blob { bytes, size, .. } => {
            assert_eq!(bytes, body);
            assert_eq!(size as usize, body.len());
        }
        other => panic!("expected Blob, got {other:?}"),
    }
}

#[test]
fn test_show_distinguishes_committer_from_author() {
    let mut repo = Repo::new("acct");
    repo.put("resources/a.md", b"x");
    let seed_oid = repo.make_commit("main", "seed");
    let seed_tree = repo.commit_tree(seed_oid);

    let author = gix_actor::Signature {
        name: "Alice Author".into(),
        email: "alice@example.com".into(),
        time: gix_object::date::Time {
            seconds: 1_700_000_000,
            offset: 3600,
            sign: gix_object::date::time::Sign::Plus,
        },
    };
    let committer = gix_actor::Signature {
        name: "Carol Committer".into(),
        email: "carol@example.com".into(),
        time: gix_object::date::Time {
            seconds: 1_700_000_100,
            offset: -7200,
            sign: gix_object::date::time::Sign::Minus,
        },
    };
    let oid = repo.write_signed(seed_tree, &[], author, committer, "split-actors");
    repo.cas_update("refs/heads/split", None, oid).unwrap();

    match repo.show("split", None).unwrap() {
        ShowResponse::Commit { author, committer, .. } => {
            assert_eq!(author.name, "Alice Author");
            assert_eq!(author.email, "alice@example.com");
            assert_eq!(author.time_seconds, 1_700_000_000);
            assert_eq!(author.tz_offset_seconds, 3600);
            assert_eq!(committer.name, "Carol Committer");
            assert_eq!(committer.email, "carol@example.com");
            assert_eq!(committer.time_seconds, 1_700_000_100);
            assert_eq!(committer.tz_offset_seconds, -7200);
        }
        other => panic!("expected Commit, got {other:?}"),
    }
}

#[test]
fn test_show_intermediate_path_component_is_blob() {
    let mut repo = Repo::new("acct");
    repo.put("resources/a.md", b"x");
    repo.make_commit("main", "first");

    match repo.show("main", Some("resources/a.md/oops")).unwrap_err() {
        GitError::PathNotFound(p) => assert_eq!(p, "resources/a.md/oops"),
        other => panic!("expected PathNotFound, got {other:?}"),
    }
}

#[test]
fn test_show_path_with_invalid_form() {
    let mut repo = Repo::new("acct");
    repo.put("resources/a.md", b"x");
    repo.make_commit("main", "first");

    let cases: &[(&str, fn(&GitError) -> bool)] = &[
        ("", |e| matches!(e, GitError::Other(_))),
        ("/x", |e| matches!(e, GitError::Other(_))),
        ("x/", |e| matches!(e, GitError::PathNotFound(p) if p == "x/")),
        ("a//b", |e| matches!(e, GitError::PathNotFound(p) if p == "a//b")),
    ];

    for (bad, check) in cases {
        let err = repo.show("main", Some(bad)).unwrap_err();
        assert!(check(&err), "path {bad:?}: unexpected error variant {err:?}");
    }
}

#[test]
fn test_show_commit_object_missing_from_store() {
    let mut repo = Repo::new("acct");
    repo.put("resources/a.md", b"x");
    let oid = repo.make_commit("main", "first");

    repo.objects.remove(&oid.bytes).expect("loose commit object must exist before removal");

    match repo.show("main", None).unwrap_err() {
        GitError::ObjectStore(ObjectStoreError::NotFound(missing)) => assert_eq!(missing, oid),
        other => panic!("expected ObjectStore(NotFound), got {other:?}"),
    }
}

#[test]
fn test_mock_vfs_write_then_read_round_trip() {
    let mut repo = Repo::new("acct");
    let path = "/local/acct/x.md";
    repo.files.insert(path.to_string(), Vec::new());
    repo.files.insert(path.to_string(), b"hello".to_vec());
    let got = repo.read(path).unwrap();
    assert_eq!(got, b"hello");
    repo.remove(path).unwrap();
    let err = repo.read(path).unwrap_err();
    assert!(matches!(err, FsError::NotFound(_)));
}

// ── Restore ────────────────────────────────────────────────────────────

/// A source commit with `a.md` and `b.md`, and a head in which `a.md` is
/// rewritten, `b.md` deleted and `c.md` created.
fn source_and_head(repo: &mut Repo) -> (ObjectId, ObjectId) {
    repo.put("resources/proj_a/a.md", b"A v1");
    repo.put("resources/proj_a/b.md", b"B v1");
    let source_oid = repo.make_commit("main", "source");

    repo.put("resources/proj_a/a.md", b"A v2");
    repo.delete("resources/proj_a/b.md");
    repo.put("resources/proj_a/c.md", b"C new");
    let head_oid = created(
        repo.commit(req(
            "acct",
            "main",
            "head",
            paths(&["resources/proj_a/a.md", "resources/proj_a/b.md", "resources/proj_a/c.md"]),
        ))
        .unwrap(),
    );
    (source_oid, head_oid)
}

#[test]
fn test_restore_dry_run_reports_diff_and_writes_nothing() {
    let mut repo = Repo::new("acct");
    let (source_oid, head_oid) = source_and_head(&mut repo);

    let resp = repo.restore(restore_req("resources/proj_a", &source_oid.to_hex(), true, None)).unwrap();

    match resp {
        RestoreResponse::DryRun { diff, head, source } => {
            assert_eq!(source, source_oid);
            assert_eq!(head, head_oid);
            assert_eq!(diff.to_write.len(), 2);
            assert_eq!(diff.to_write[0].0, "a.md");
            assert_eq!(diff.to_write[1].0, "b.md");
            assert_eq!(diff.to_delete, vec!["c.md".to_string()]);
            assert!(diff.unchanged.is_empty());
        }
        other => panic!("expected DryRun, got {other:?}"),
    }

    assert_eq!(repo.file("resources/proj_a/a.md").unwrap(), b"A v2", "dry_run must not overwrite a.md");
    assert!(repo.file("resources/proj_a/c.md").is_some(), "dry_run must not delete c.md");
    assert_eq!(repo.read_ref("refs/heads/main").unwrap(), head_oid);
}

#[test]
fn test_restore_apply_writes_new_commit_with_head_as_parent() {
    let mut repo = Repo::new("acct");
    let (source_oid, head_oid) = source_and_head(&mut repo);

    let resp = repo
        .restore(restore_req("resources/proj_a", &source_oid.to_hex(), false, Some("rewind proj_a")))
        .unwrap();

    let new_oid = match resp {
        RestoreResponse::Applied {
            new_commit_oid,
            source_commit,
            parent_commit,
            written,
            deleted,
            unchanged,
            written_paths,
            deleted_paths,
        } => {
            assert_eq!(source_commit, source_oid);
            assert_eq!(parent_commit, head_oid, "parent MUST be HEAD, NOT source");
            assert_eq!(written, 2, "a.md (rewrite) + b.md (recreate) = 2");
            assert_eq!(deleted, 1, "c.md");
            assert_eq!(unchanged, 0);
            assert_eq!(written_paths.len(), 2);
            assert_eq!(deleted_paths.len(), 1);
            for p in &written_paths {
                assert!(p.starts_with("resources/proj_a/"), "written path missing project_dir prefix: {p}");
            }
            for p in &deleted_paths {
                assert!(p.starts_with("resources/proj_a/"), "deleted path missing project_dir prefix: {p}");
            }
            new_commit_oid
        }
        other => panic!("expected Applied, got {other:?}"),
    };

    assert_eq!(repo.read_ref("refs/heads/main").unwrap(), new_oid);
    assert_eq!(repo.commit_parents(new_oid), vec![head_oid]);

    assert_eq!(repo.file("resources/proj_a/a.md").unwrap(), b"A v1", "a.md rolled back");
    assert_eq!(repo.file("resources/proj_a/b.md").unwrap(), b"B v1", "b.md restored");
    assert!(repo.file("resources/proj_a/c.md").is_none(), "c.md deleted");
    assert_eq!(repo.meta(&new_oid).unwrap().message, "rewind proj_a");
}

#[test]
fn test_restore_prunes_directories_emptied_by_delete() {
    let mut repo = Repo::new("acct");
    repo.put("resources/proj_a/keeper.md", b"keep");
    let source_oid = repo.make_commit("main", "source");

    repo.put("resources/proj_a/nested/x.md", b"x");
    repo.put("resources/proj_a/nested/deep/y.md", b"y");
    repo.make_commit("main", "head");

    repo.restore(restore_req("resources/proj_a", &source_oid.to_hex(), false, Some("rewind"))).unwrap();

    assert!(repo.file("resources/proj_a/nested/deep/y.md").is_none(), "nested/deep/y.md must be deleted");
    assert!(repo.file("resources/proj_a/nested/x.md").is_none(), "nested/x.md must be deleted");
    let deep = repo.abs("resources/proj_a/nested/deep");
    let nested = repo.abs("resources/proj_a/nested");
    assert!(!repo.dirs.contains(&deep), "emptied directory nested/deep must be pruned");
    assert!(!repo.dirs.contains(&nested), "emptied directory nested must be pruned");
    assert_eq!(repo.removed_dirs, vec![deep, nested], "the deepest directory goes first");
    assert!(repo.file("resources/proj_a/keeper.md").is_some(), "keeper.md must survive");
    assert!(
        repo.dirs.contains(&repo.abs("resources/proj_a")),
        "project_dir itself must remain (still holds keeper.md)",
    );
}

#[test]
fn test_restore_tolerates_already_deleted_path() {
    let mut repo = Repo::new("acct");
    repo.strict_remove = true;

    repo.put("resources/proj_a/a.md", b"A v1");
    let source_oid = repo.make_commit("main", "source");

    repo.put("resources/proj_a/.abstract.md", b"derived");
    repo.put("resources/proj_a/a.md", b"A v2");
    let head_oid = created(
        repo.commit(req(
            "acct",
            "main",
            "head",
            paths(&["resources/proj_a/a.md", "resources/proj_a/.abstract.md"]),
        ))
        .unwrap(),
    );

    repo.delete("resources/proj_a/.abstract.md");

    let resp = repo
        .restore(restore_req("resources/proj_a", &source_oid.to_hex(), false, Some("rewind")))
        .expect("restore must tolerate an already-deleted path");

    let new_oid = match resp {
        RestoreResponse::Applied { deleted, deleted_paths, new_commit_oid, .. } => {
            assert_eq!(deleted, 1, ".abstract.md");
            assert_eq!(deleted_paths.len(), 1);
            new_commit_oid
        }
        other => panic!("expected Applied, got {other:?}"),
    };

    assert_eq!(repo.read_ref("refs/heads/main").unwrap(), new_oid);
    assert_eq!(repo.commit_parents(new_oid), vec![head_oid]);
}

#[test]
fn test_restore_noop_when_source_equals_head() {
    let mut repo = Repo::new("acct");
    repo.put("resources/proj_a/a.md", b"only file");
    let only_oid = repo.make_commit("main", "only");

    match repo.restore(restore_req("resources/proj_a", &only_oid.to_hex(), false, None)).unwrap() {
        RestoreResponse::Noop { head, source } => {
            assert_eq!(head, only_oid);
            assert_eq!(source, only_oid);
        }
        other => panic!("expected Noop, got {other:?}"),
    }
    assert_eq!(repo.read_ref("refs/heads/main").unwrap(), only_oid);
}

#[test]
fn test_restore_invalid_project_dir() {
    let mut repo = Repo::new("acct");
    let err = repo.restore(restore_req_as_x("", "main", true, None)).unwrap_err();
    assert!(matches!(err, GitError::InvalidProjectDir(_)));
}

#[test]
fn test_restore_unknown_source_ref() {
    let mut repo = Repo::new("acct");
    repo.put("resources/proj_a/a.md", b"x");
    repo.make_commit("main", "init");
    let err = repo.restore(restore_req_as_x("resources/proj_a", "does-not-exist", true, None)).unwrap_err();
    assert!(matches!(err, GitError::RefStore(RefStoreError::NotFound(_))));
}

#[test]
fn test_restore_unknown_branch_head() {
    let mut repo = Repo::new("acct");
    repo.put("resources/proj_a/a.md", b"x");
    let only = repo.make_commit("main", "only");
    let mut req = restore_req_as_x("resources/proj_a", &only.to_hex(), true, None);
    req.branch = "ghost".into();
    let err = repo.restore(req).unwrap_err();
    assert!(matches!(err, GitError::RefStore(RefStoreError::NotFound(_))));
}

#[test]
fn test_restore_project_dir_missing_in_source_commit() {
    let mut repo = Repo::new("acct");
    repo.put("resources/other_proj/x.md", b"x");
    let source_oid = repo.make_commit("main", "source");
    repo.put("resources/proj_a/a.md", b"a");
    repo.make_commit("main", "head");

    let err = repo.restore(restore_req_as_x("resources/proj_a", &source_oid.to_hex(), true, None)).unwrap_err();
    match err {
        GitError::SubtreeNotFoundInCommit { project_dir, commit } => {
            assert_eq!(project_dir, "resources/proj_a");
            assert_eq!(commit, source_oid);
        }
        other => panic!("expected SubtreeNotFoundInCommit, got {other:?}"),
    }
}

#[test]
fn test_restore_cas_conflict_surfaces_as_error() {
    let mut repo = Repo::new("acct");
    repo.put("resources/proj_a/a.md", b"v1");
    let source_oid = repo.make_commit("main", "source");
    repo.put("resources/proj_a/a.md", b"v2");
    let head_oid = repo.make_commit("main", "head");

    let bogus = bogus_oid();
    repo.conflict = Some(bogus);
    let err = repo.restore(restore_req_as_x("resources/proj_a", &source_oid.to_hex(), false, None)).unwrap_err();
    match err {
        GitError::ConcurrentCommit { ref_name, expected, actual } => {
            assert_eq!(ref_name, "refs/heads/main");
            assert_eq!(expected, Some(head_oid));
            assert_eq!(actual, Some(bogus));
        }
        other => panic!("expected ConcurrentCommit, got {other:?}"),
    }
}

#[test]
fn test_restore_does_not_touch_paths_outside_project_dir() {
    let mut repo = Repo::new("acct");
    repo.put("resources/proj_a/a.md", b"A v1");
    repo.put("agent/skills/unrelated.py", b"unrelated v1");
    let source_oid = repo.make_commit("main", "source");

    repo.put("resources/proj_a/a.md", b"A v2");
    repo.put("agent/skills/unrelated.py", b"unrelated v2");
    repo.put("agent/skills/new_skill.py", b"brand new");
    repo.make_commit("main", "head");

    let resp = repo.restore(restore_req_as_x("resources/proj_a", &source_oid.to_hex(), false, None)).unwrap();
    let new_oid = match resp {
        RestoreResponse::Applied { new_commit_oid, .. } => new_commit_oid,
        other => panic!("expected Applied, got {other:?}"),
    };

    assert_eq!(
        repo.file("agent/skills/unrelated.py").unwrap(),
        b"unrelated v2",
        "restore must NOT roll back unrelated.py",
    );
    assert!(repo.file("agent/skills/new_skill.py").is_some(), "restore must NOT delete new_skill.py");
    assert_eq!(repo.file("resources/proj_a/a.md").unwrap(), b"A v1");

    let new_tree = repo.commit_tree(new_oid);
    let source_tree = repo.commit_tree(source_oid);
    let unrelated_in_new = repo.lookup(new_tree, "agent/skills/unrelated.py").unwrap().unwrap();
    let unrelated_in_source = repo.lookup(source_tree, "agent/skills/unrelated.py").unwrap().unwrap();
    assert_ne!(
        unrelated_in_new.0, unrelated_in_source.0,
        "agent/skills/unrelated.py in the new tree must be HEAD's v2 oid, not source's v1 oid",
    );
    assert!(
        repo.lookup(new_tree, "agent/skills/new_skill.py").unwrap().is_some(),
        "new_skill.py must still be present in the new tree",
    );
    let short = &source_oid.to_hex()[..12];
    assert_eq!(repo.meta(&new_oid).unwrap().message, format!("restore resources/proj_a from {short}"));
}

#[test]
fn test_restore_then_show_reflects_old_content() {
    let mut repo = Repo::new("acct");

    repo.put("resources/proj_a/note.md", b"original");
    let src = repo.make_commit("main", "src");

    repo.put("resources/proj_a/note.md", b"edited");
    repo.make_commit("main", "edit");

    match repo.show("main", Some("resources/proj_a/note.md")).unwrap() {
        ShowResponse::Blob { bytes, .. } => assert_eq!(bytes, b"edited"),
        other => panic!("expected Blob, got {other:?}"),
    }

    let resp = repo.restore(restore_req_as_x("resources/proj_a", &src.to_hex(), false, Some("rewind"))).unwrap();
    let new_oid = match resp {
        RestoreResponse::Applied { new_commit_oid, .. } => new_commit_oid,
        other => panic!("expected Applied, got {other:?}"),
    };

    match repo.show("main", Some("resources/proj_a/note.md")).unwrap() {
        ShowResponse::Blob { bytes, .. } => assert_eq!(bytes, b"original"),
        other => panic!("expected Blob, got {other:?}"),
    }
    match repo.show(&new_oid.to_hex(), Some("resources/proj_a/note.md")).unwrap() {
        ShowResponse::Blob { bytes, .. } => assert_eq!(bytes, b"original"),
        other => panic!("expected Blob, got {other:?}"),
    }
}

#[test]
fn restoring_again_is_a_noop() {
    let mut repo = Repo::new("acct");
    let (source, _) = source_and_head(&mut repo);
    let first = repo.restore(restore_req("resources/proj_a", &source.to_hex(), false, None)).unwrap();
    let new = match first {
        RestoreResponse::Applied { new_commit_oid, .. } => new_commit_oid,
        other => panic!("expected Applied, got {other:?}"),
    };
    let second = repo.restore(restore_req("resources/proj_a", &source.to_hex(), false, None)).unwrap();
    assert_eq!(second, RestoreResponse::Noop { head: new, source });
}

// ── Laws and edges ─────────────────────────────────────────────────────

#[test]
fn noop_on_a_branch_that_does_not_exist_is_null() {
    let mut repo = Repo::new("acct");
    let resp = repo.commit(req("acct", "main", "nothing", None)).unwrap();
    assert_eq!(resp, CommitResponse::Noop { commit_oid: ObjectId::null(), ignored: 0 });
    assert!(repo.refs.is_empty());
}

#[test]
fn changed_counts_the_paths_that_differ() {
    let mut repo = Repo::new("acct");
    repo.put("a.md", b"1");
    repo.put("b.md", b"2");
    repo.put("c.md", b"3");
    match repo.commit(req("acct", "main", "m", None)).unwrap() {
        CommitResponse::Created { changed, .. } => assert_eq!(changed, 3),
        other => panic!("expected Created, got {other:?}"),
    }
    repo.put("a.md", b"1x");
    repo.delete("b.md");
    match repo.commit(req("acct", "main", "m", paths(&["a.md", "b.md", "c.md", "d.md"]))).unwrap() {
        CommitResponse::Created { changed, .. } => assert_eq!(changed, 2),
        other => panic!("expected Created, got {other:?}"),
    }
}

#[test]
fn full_commit_excludes_what_the_ignore_file_matches() {
    let mut repo = Repo::new("acct");
    repo.put(".ovgitignore", b"*.log\n");
    repo.put("resources/a.md", b"a");
    repo.put("resources/a.log", b"log");
    let resp = repo.commit(req("acct", "main", "m", None)).unwrap();
    assert_eq!(counts(&resp), (2, 1));
    assert_eq!(repo.paths_of(created(resp)), vec![".ovgitignore".to_string(), "resources/a.md".to_string()]);
}

#[test]
fn scoped_commit_skips_what_the_ignore_file_matches() {
    let mut repo = Repo::new("acct");
    repo.put(".ovgitignore", b"*.log\n");
    repo.put("resources/a.md", b"a");
    repo.put("resources/a.log", b"log");
    let request = req("acct", "main", "m", paths(&["resources/a.md", "resources/a.log"]));
    let resp = repo.commit(request).unwrap();
    assert_eq!(counts(&resp), (1, 1));
    assert_eq!(repo.paths_of(created(resp)), vec!["resources/a.md".to_string()]);
    // What is left out is counted where nothing changes, too.
    let again = repo.commit(req("acct", "main", "m", paths(&["resources/a.log"]))).unwrap();
    assert_eq!(counts(&again), (0, 1));
}

#[test]
fn new_ignore_rules_drop_files_from_the_next_snapshot() {
    let mut repo = Repo::new("acct");
    repo.put("resources/a.md", b"a");
    repo.put("resources/a.log", b"log");
    let first = repo.make_commit("main", "first");
    assert_eq!(repo.paths_of(first).len(), 2);

    repo.put(".ovgitignore", b"*.log\n");
    let resp = repo.commit(req("acct", "main", "second", None)).unwrap();
    assert_eq!(counts(&resp), (2, 2));
    let second = created(resp);
    assert_eq!(repo.paths_of(second), vec![".ovgitignore".to_string(), "resources/a.md".to_string()]);
    assert!(repo.file("resources/a.log").is_some(), "the file itself is left alone");

    // The log is still in the first snapshot, and a restore brings it back.
    match repo.show(&first.to_hex(), Some("resources/a.log")).unwrap() {
        ShowResponse::Blob { bytes, .. } => assert_eq!(bytes, b"log"),
        other => panic!("expected Blob, got {other:?}"),
    }
    repo.restore(restore_req("resources", &first.to_hex(), false, None)).unwrap();
    match repo.show("main", Some("resources/a.log")).unwrap() {
        ShowResponse::Blob { bytes, .. } => assert_eq!(bytes, b"log"),
        other => panic!("expected Blob, got {other:?}"),
    }
}

#[test]
fn scoped_commits_drop_files_that_are_ignored_by_now() {
    for scope in [&["resources/a.md"][..], &["resources/a.log"][..], &["elsewhere"][..]] {
        let mut repo = Repo::new("acct");
        repo.put("resources/a.md", b"a");
        repo.put("resources/a.log", b"log");
        repo.make_commit("main", "first");

        repo.put(".ovgitignore", b"*.log\n");
        let resp = repo.commit(req("acct", "main", "second", paths(scope))).unwrap();
        let named = usize::from(scope[0].ends_with(".log"));
        assert_eq!(counts(&resp), (1, 1 + named), "{scope:?}");
        assert_eq!(repo.paths_of(created(resp)), vec!["resources/a.md".to_string()]);
        assert!(repo.file("resources/a.log").is_some(), "the file itself is left alone");
    }
}

#[test]
fn a_full_commit_drops_files_that_are_gone() {
    let mut repo = Repo::new("acct");
    repo.put("a.md", b"a");
    repo.put("b.md", b"b");
    repo.make_commit("main", "first");

    // A deletion alone is a change.
    repo.delete("b.md");
    let resp = repo.commit(req("acct", "main", "second", None)).unwrap();
    assert_eq!(counts(&resp), (1, 0));
    assert_eq!(repo.paths_of(created(resp)), vec!["a.md".to_string()]);

    // A file that becomes a directory, and the other way round.
    repo.delete("a.md");
    repo.put("a.md/inner.md", b"inner");
    let resp = repo.commit(req("acct", "main", "third", None)).unwrap();
    assert_eq!(counts(&resp), (2, 0));
    assert_eq!(repo.paths_of(created(resp)), vec!["a.md/inner.md".to_string()]);
    repo.delete("a.md/inner.md");
    let abs = repo.abs("a.md");
    repo.dirs.remove(&abs);
    repo.put("a.md", b"a");
    let resp = repo.commit(req("acct", "main", "fourth", None)).unwrap();
    assert_eq!(counts(&resp), (2, 0));
    assert_eq!(repo.paths_of(created(resp)), vec!["a.md".to_string()]);

    // A scoped commit looks at the paths that it names, and no others.
    repo.put("c.md", b"c");
    repo.delete("a.md");
    let resp = repo.commit(req("acct", "main", "fifth", paths(&["c.md"]))).unwrap();
    assert_eq!(counts(&resp), (1, 0));
    assert_eq!(repo.paths_of(created(resp)), vec!["a.md".to_string(), "c.md".to_string()]);
}

#[test]
fn what_the_runtime_keeps_leaves_an_older_tree() {
    for scope in [None, paths(&["a.md"])] {
        let mut repo = Repo::new("acct");
        repo.put("a.md", b"a");
        // A tree that holds what no commit takes by now.
        let mut editor = TreeEditor::empty();
        let blob = repo.write_object(gix_object::Kind::Blob, b"a");
        editor.upsert("a.md", blob).unwrap();
        editor.upsert("_system/queue/x", blob).unwrap();
        let tree = repo.write_tree(&editor);
        let commit = repo.write_commit(tree, &[], "n", "e", "older");
        repo.refs.insert("refs/heads/main".to_string(), commit);
        assert_eq!(repo.paths_of(commit).len(), 2);

        let scoped = scope.is_some();
        let resp = repo.commit(req("acct", "main", "m", scope.clone())).unwrap();
        if scoped {
            // Without an ignore file, a commit of given paths leaves the others alone.
            assert_eq!(resp, CommitResponse::Noop { commit_oid: commit, ignored: 0 });
            assert_eq!(repo.read_ref("refs/heads/main").unwrap(), commit);
            // A blank one is an ignore file.
            repo.put(".ovgitignore", b"\n");
        }
        let resp = if scoped { repo.commit(req("acct", "main", "m", scope)).unwrap() } else { resp };
        assert_eq!(counts(&resp), (1, 0));
        assert_eq!(repo.paths_of(created(resp)), vec!["a.md".to_string()]);
    }
}

#[test]
fn a_scoped_commit_without_an_ignore_file_touches_its_paths_only() {
    let mut repo = Repo::new("acct");
    let blob = repo.write_object(gix_object::Kind::Blob, b"a");
    let mut editor = TreeEditor::empty();
    for path in ["_system/lock", "gone.md", "kept.md", "resources/x.faiss"] {
        editor.upsert(path, blob).unwrap();
    }
    let tree = repo.write_tree(&editor);
    let commit = repo.write_commit(tree, &[], "n", "e", "older");
    repo.refs.insert("refs/heads/main".to_string(), commit);
    repo.put("new.md", b"new");
    repo.put("_system/lock", b"other");
    let request = req("acct", "main", "m", paths(&["new.md", "_system/lock", "gone.md"]));
    let resp = repo.commit(request).unwrap();
    assert_eq!(counts(&resp), (2, 0));
    let new = created(resp);
    assert_eq!(repo.paths_of(new), vec![
        "_system/lock".to_string(),
        "kept.md".to_string(),
        "new.md".to_string(),
        "resources/x.faiss".to_string(),
    ]);
    match repo.show(&new.to_hex(), Some("_system/lock")).unwrap() {
        ShowResponse::Blob { bytes, .. } => assert_eq!(bytes, b"a"),
        other => panic!("expected Blob, got {other:?}"),
    }
}

#[test]
fn show_gives_back_what_was_committed() {
    let mut repo = Repo::new("acct");
    let files: [(&str, &[u8]); 4] =
        [("a.md", b"a"), ("dir/b.bin", &[0, 255, 10, 0]), ("dir/deep/c", b""), ("z", b"same")];
    for (path, bytes) in files {
        repo.put(path, bytes);
    }
    let oid = repo.make_commit("main", "m");
    for target in ["main".to_string(), "refs/heads/main".to_string(), oid.to_hex()] {
        for (path, expected) in files {
            match repo.show(&target, Some(path)).unwrap() {
                ShowResponse::Blob { bytes, .. } => assert_eq!(bytes, expected, "{path}"),
                other => panic!("expected Blob, got {other:?}"),
            }
        }
    }
    // A later commit leaves the earlier one as it is.
    repo.put("a.md", b"other");
    repo.make_commit("main", "n");
    match repo.show(&oid.to_hex(), Some("a.md")).unwrap() {
        ShowResponse::Blob { bytes, .. } => assert_eq!(bytes, b"a"),
        other => panic!("expected Blob, got {other:?}"),
    }
}

#[test]
fn every_way_to_name_a_commit_shows_the_same() {
    let mut repo = Repo::new("acct");
    repo.put("dir/a.md", b"a");
    repo.make_commit("main", "first");
    repo.put("dir/a.md", b"b");
    let head = repo.make_commit("main", "second");
    let hex = head.to_hex();
    for path in [None, Some("dir/a.md"), Some("dir"), Some("missing")] {
        let expected = repo.show("main", path);
        for target in ["refs/heads/main", &hex, &hex[..39], &hex[..8], &hex[..8].to_uppercase()] {
            assert_eq!(repo.show(target, path), expected, "{target} {path:?}");
        }
        if path.is_none() {
            assert!(matches!(expected, Ok(ShowResponse::Commit { oid, .. }) if oid == head));
        }
    }
}

#[test]
fn another_account_does_not_see_a_commit() {
    let mut repo = Repo::new("a");
    repo.put("f", b"1");
    let commit = created(repo.commit(req("a", "main", "m", None)).unwrap());
    let other = Repo::new("b");
    for path in [None, Some("f")] {
        assert_eq!(
            other.show(&commit.to_hex(), path),
            Err(GitError::ObjectStore(ObjectStoreError::NotFound(commit)))
        );
    }
}

#[test]
fn invalid_ignore_file_fails_the_commit() {
    let mut repo = Repo::new("acct");
    repo.put(".ovgitignore", b"ok\n!keep\n");
    repo.put("a.md", b"a");
    match repo.commit(req("acct", "main", "m", None)).unwrap_err() {
        GitError::InvalidIgnoreFile { path, reason } => {
            assert_eq!(path, ".ovgitignore");
            assert_eq!(reason, "line 2 uses unsupported negation: !keep");
        }
        other => panic!("expected InvalidIgnoreFile, got {other:?}"),
    }
}

#[test]
fn ambiguous_digits_list_the_candidates() {
    let mut repo = Repo::new("acct");
    repo.put("a.md", b"0");
    let mut tips = vec![repo.make_commit("main", "c0")];
    // Sixteen commits more: two of them share their first digit at least.
    for i in 1..17 {
        repo.put("a.md", format!("{i}").as_bytes());
        tips.push(repo.make_commit("main", "c"));
    }
    let search = |repo: &Repo, prefix: &str| {
        repo.resolve(&RefTarget::Abbreviated(prefix.to_string()))
    };
    let mut by_digit: HashMap<String, Vec<ObjectId>> = HashMap::new();
    for tip in &tips {
        by_digit.entry(tip.to_hex()[..1].to_string()).or_default().push(*tip);
    }
    for (digit, oids) in &by_digit {
        let result = search(&repo, digit);
        if oids.len() == 1 {
            assert_eq!(result.unwrap(), oids[0]);
        } else {
            match result.unwrap_err() {
                GitError::AmbiguousOid { prefix, count, candidates } => {
                    assert_eq!(&prefix, digit);
                    assert_eq!(count, oids.len().min(6));
                    let listed: Vec<&str> = candidates.split(", ").collect();
                    assert_eq!(listed.len(), count.min(5));
                    for c in listed {
                        assert!(c.starts_with(digit.as_str()));
                    }
                }
                other => panic!("expected AmbiguousOid, got {other:?}"),
            }
        }
    }
    assert!(by_digit.values().any(|oids| oids.len() > 1));
    // Case does not count.
    let upper = tips[0].to_hex()[..10].to_uppercase();
    assert_eq!(search(&repo, &upper).unwrap(), tips[0]);
}

#[test]
fn stat_failure_and_blocked_path_fail_the_commit() {
    let service = GitService::new((), (), ());
    let start = service.commit(req("acct", "main", "m", paths(&["a", "a/b"])));
    assert_eq!(start.context.ref_name, "refs/heads/main");
    let base = match start.head(Err(RefStoreError::NotFound("x".into()))).unwrap() {
        CommitHead::Root(base) => base,
        CommitHead::Parent(_) => panic!("expected the first commit"),
    };
    assert_eq!(base.ignore_path(), "/local/acct/.ovgitignore");
    let work = match base.ignore_file(Err(FsError::NotFound("x".into()))).unwrap() {
        CommitScope::Scoped(scoped) => scoped.previous(Vec::new()).unwrap(),
        CommitScope::Full(_) => panic!("expected a scoped commit"),
    };
    assert_eq!(work.path().as_deref(), Some("a"));
    assert_eq!(work.absolute_path().as_deref(), Some("/local/acct/a"));
    let work = work.record(PathState::File { oid: bogus_oid(), previous: None }).unwrap();
    let err = work.record(PathState::File { oid: bogus_oid(), previous: None }).unwrap_err();
    assert_eq!(err, GitError::Other("path component 'a' is not a tree".to_string()));

    let start = service.commit(req("acct", "main", "m", None));
    let err = start.head(Err(RefStoreError::Backend("down".into()))).unwrap_err();
    assert_eq!(err, GitError::RefStore(RefStoreError::Backend("down".into())));
}
