//! Whole commands against a small repository that lives in memory.
use std::collections::BTreeMap;

use git_imerge::cli::{
    Command, DiagramArgs, EditArgs, InitArgs, MergeArgs, NameArgs, RangeArgs, RebaseArgs,
    ReparentArgs, SimplifyArgs,
};
use git_imerge::commands::run;
use git_imerge::error::ImergeError;
use git_imerge::git::Git;
use git_imerge::state::StateDict;
use git_imerge::talk::{Message, Output, Reply, Request};

type Files = BTreeMap<String, String>;

struct Commit {
    tree: Files,
    parents: Vec<String>,
    msg: String,
}

struct Repo {
    commits: BTreeMap<String, Commit>,
    blobs: BTreeMap<String, String>,
    refs: BTreeMap<String, String>,
    branch: Option<String>,
    head: String,
    default_name: Option<String>,
    merging: Option<String>,
    conflict: bool,
    staged: Option<Files>,
    states: Vec<StateDict>,
    written: BTreeMap<String, String>,
}

fn files(list: &[(&str, &str)]) -> Files {
    list.iter().map(|(k, v)| (k.to_string(), v.to_string())).collect()
}

fn shown(tree: &Files) -> String {
    let parts: Vec<String> = tree.iter().map(|(k, v)| format!("{k}={v}")).collect();
    format!("tree({})", parts.join(";"))
}

fn ok(text: &str) -> Reply {
    Reply::Output(Output { success: true, stdout: text.to_string(), stderr: String::new() })
}

fn fails(text: &str) -> Reply {
    Reply::Output(Output { success: false, stdout: String::new(), stderr: text.to_string() })
}

fn yes_or_no(success: bool) -> Reply {
    if success {
        ok("")
    } else {
        fails("no")
    }
}

impl Repo {
    fn new() -> Repo {
        let mut repo = Repo {
            commits: BTreeMap::new(),
            blobs: BTreeMap::new(),
            refs: BTreeMap::new(),
            branch: Some("refs/heads/main".to_string()),
            head: String::new(),
            default_name: None,
            merging: None,
            conflict: false,
            staged: None,
            states: Vec::new(),
            written: BTreeMap::new(),
        };
        repo.head = repo.add(files(&[("base", "base")]), vec![], "base\n");
        repo.refs.insert("refs/heads/main".to_string(), repo.head.clone());
        repo
    }

    fn add(&mut self, tree: Files, parents: Vec<String>, msg: &str) -> String {
        let sha1 = format!("c{:03}", self.commits.len());
        self.commits.insert(sha1.clone(), Commit { tree, parents, msg: msg.to_string() });
        sha1
    }

    fn set_head(&mut self, sha1: &str) {
        self.head = sha1.to_string();
        if let Some(b) = &self.branch {
            self.refs.insert(b.clone(), sha1.to_string());
        }
    }

    /// Checks a new branch out.
    fn branch(&mut self, name: &str) {
        let refname = format!("refs/heads/{name}");
        self.refs.insert(refname.clone(), self.head.clone());
        self.branch = Some(refname);
    }

    fn switch(&mut self, name: &str) {
        let refname = format!("refs/heads/{name}");
        self.head = self.refs[&refname].clone();
        self.branch = Some(refname);
    }

    /// Commits a change of one file.
    fn commit(&mut self, file: &str, content: &str, msg: &str) -> String {
        let mut tree = self.commits[&self.head].tree.clone();
        tree.insert(file.to_string(), content.to_string());
        let sha1 = self.add(tree, vec![self.head.clone()], &format!("{msg}\n"));
        self.set_head(&sha1);
        sha1
    }

    fn resolve_rev(&self, rev: &str) -> Option<String> {
        if let Some(r) = rev.strip_suffix("^{commit}") {
            return self.resolve_rev(r);
        }
        if let Some(r) = rev.strip_suffix("^{tree}") {
            return self.resolve_rev(r).map(|c| shown(&self.commits[&c].tree));
        }
        if let Some(r) = rev.strip_suffix("^0") {
            return self.resolve_rev(r);
        }
        if let Some(r) = rev.strip_suffix('^') {
            return self.resolve_rev(r).and_then(|c| self.commits[&c].parents.first().cloned());
        }
        if rev == "HEAD" {
            return Some(self.head.clone());
        }
        if self.commits.contains_key(rev) {
            return Some(rev.to_string());
        }
        if let Some(sha1) = self.refs.get(rev) {
            return Some(sha1.clone());
        }
        self.refs.get(&format!("refs/heads/{rev}")).cloned()
    }

    fn ancestors(&self, sha1: &str) -> Vec<String> {
        let mut found = vec![sha1.to_string()];
        let mut i = 0;
        while i < found.len() {
            for p in self.commits[&found[i]].parents.clone() {
                if !found.contains(&p) {
                    found.push(p);
                }
            }
            i += 1;
        }
        found
    }

    /// The commits after `a` up to `b` that lead from `a`, oldest first.
    fn path(&self, range: &str) -> Vec<String> {
        let (a, b) = range.split_once("..").unwrap();
        let a = self.resolve_rev(a).unwrap();
        let b = self.resolve_rev(b).unwrap();
        let mut list: Vec<String> = self
            .ancestors(&b)
            .into_iter()
            .filter(|c| *c != a && self.ancestors(c).contains(&a))
            .collect();
        list.sort_by_key(|c| self.ancestors(c).len());
        list
    }

    fn bases(&self, a: &str, b: &str) -> Vec<String> {
        let of_b = self.ancestors(b);
        let common: Vec<String> =
            self.ancestors(a).into_iter().filter(|c| of_b.contains(c)).collect();
        common
            .iter()
            .filter(|c| !common.iter().any(|d| d != *c && self.ancestors(d).contains(c)))
            .cloned()
            .collect()
    }

    /// Merges two trees file by file. Both sides may have changed a file only in
    /// the same way, unless one side is preferred.
    fn merged(&self, a: &str, b: &str, prefer_ours: bool) -> Result<Files, Files> {
        let base = match self.bases(a, b).first() {
            Some(c) => self.commits[c].tree.clone(),
            None => Files::new(),
        };
        let (ours, theirs) = (&self.commits[a].tree, &self.commits[b].tree);
        let mut tree = Files::new();
        let mut conflict = false;
        let names: Vec<&String> = ours.keys().chain(theirs.keys()).chain(base.keys()).collect();
        for name in names {
            let (o, t, s) = (ours.get(name), theirs.get(name), base.get(name));
            let result = if o == t || t == s {
                o
            } else if o == s {
                t
            } else {
                if !prefer_ours {
                    conflict = true;
                }
                o
            };
            if let Some(content) = result {
                tree.insert(name.clone(), content.clone());
            }
        }
        if conflict {
            Err(tree)
        } else {
            Ok(tree)
        }
    }

    fn commit_text(&self, sha1: &str) -> String {
        let c = &self.commits[sha1];
        let parents: String = c.parents.iter().map(|p| format!("parent {p}\n")).collect();
        format!("tree {}\n{parents}author A <a> 1\ncommitter A <a> 1\n\n{}", shown(&c.tree), c.msg)
    }

    fn tree_by_name(&self, name: &str) -> Files {
        self.commits.values().find(|c| shown(&c.tree) == name).unwrap().tree.clone()
    }

    fn for_each_ref(&self, pattern: &str, short: bool) -> String {
        let mut out = String::new();
        for (name, value) in &self.refs {
            if name == pattern || name.starts_with(&format!("{pattern}/")) {
                if short {
                    out.push_str(&format!("{name}\n"));
                } else {
                    let typ = if self.commits.contains_key(value) { "commit" } else { "blob" };
                    out.push_str(&format!("{value} {typ} {name}\n"));
                }
            }
        }
        out
    }

    fn subjects(&self, rev: &str) -> Vec<String> {
        let mut list = Vec::new();
        let mut at = self.resolve_rev(rev);
        while let Some(c) = at {
            list.push(self.commits[&c].msg.lines().next().unwrap_or("").to_string());
            at = self.commits[&c].parents.first().cloned();
        }
        list
    }

    /// Resolves the conflict in the work tree and stages the result.
    fn resolve_conflict(&mut self, file: &str, content: &str) {
        let mut tree = self.staged.clone().unwrap();
        tree.insert(file.to_string(), content.to_string());
        self.staged = Some(tree);
        self.conflict = false;
    }

    fn git(&mut self, args: &[&str], stdin: Option<&str>) -> Reply {
        match args {
            ["check-ref-format", name] => yes_or_no(!name.contains(' ')),
            ["rev-parse", "--git-dir"] => ok(".git\n"),
            ["rev-parse", "--verify", "HEAD"] => ok(&self.head),
            ["rev-parse", "--verify", "--quiet", rev] => match self.resolve_rev(rev) {
                Some(sha1) => ok(&format!("{sha1}\n")),
                None => fails(""),
            },
            ["update-index", ..] => ok(""),
            ["diff-files", ..] => yes_or_no(!self.conflict),
            ["diff-index", ..] => yes_or_no(self.staged.is_none()),
            ["symbolic-ref", "--quiet", "--short", "HEAD"] => match &self.branch {
                Some(b) => ok(b.strip_prefix("refs/heads/").unwrap()),
                None => fails(""),
            },
            ["symbolic-ref", "--quiet", "HEAD"] => match &self.branch {
                Some(b) => ok(b),
                None => fails(""),
            },
            ["symbolic-ref", "-m", _, "HEAD", refname] => {
                self.branch = Some(refname.to_string());
                self.head = self.refs[*refname].clone();
                ok("")
            }
            ["merge-base", "--all", a, b] => {
                let (a, b) = (self.resolve_rev(a).unwrap(), self.resolve_rev(b).unwrap());
                ok(&self.bases(&a, &b).join("\n"))
            }
            ["rev-list", "--count", "--ancestry-path", range] => {
                ok(&format!("{}\n", self.path(range).len()))
            }
            ["rev-list", "--no-merges", "--count", range] => {
                ok(&format!("{}\n", self.path(range).len()))
            }
            ["log", "--format=%H %P", rest @ ..] => {
                let mut list = self.path(rest.last().unwrap());
                if !rest.contains(&"--reverse") {
                    list.reverse();
                }
                let lines: Vec<String> = list
                    .iter()
                    .map(|c| format!("{c} {}", self.commits[c].parents.join(" ")))
                    .collect();
                ok(&lines.join("\n"))
            }
            ["--no-pager", "log", "--no-walk", "--pretty=format:%P", c] => {
                let c = self.resolve_rev(c).unwrap();
                ok(&self.commits[&c].parents.join(" "))
            }
            ["--no-pager", "log", "-n1", _, _] => ok("A\na@b\n2020\n"),
            ["--no-pager", "log", "--no-walk", _] => ok(""),
            ["cat-file", "commit", c] => ok(&self.commit_text(&self.resolve_rev(c).unwrap())),
            ["cat-file", "blob", name] => ok(&self.blobs[&self.refs[*name]]),
            ["for-each-ref", "--format=%(refname)", pattern] => {
                ok(&self.for_each_ref(pattern, true))
            }
            ["for-each-ref", _, pattern] => ok(&self.for_each_ref(pattern, false)),
            ["hash-object", "-t", "blob", ..] => {
                let sha1 = format!("b{:03}", self.blobs.len());
                self.blobs.insert(sha1.clone(), stdin.unwrap().to_string());
                ok(&sha1)
            }
            ["hash-object", "-t", "commit", ..] => {
                let text = stdin.unwrap();
                let (header, msg) = text.split_once("\n\n").unwrap();
                let mut tree = Files::new();
                let mut parents = Vec::new();
                for line in header.lines() {
                    if let Some(t) = line.strip_prefix("tree ") {
                        tree = self.tree_by_name(t);
                    } else if let Some(p) = line.strip_prefix("parent ") {
                        parents.push(p.to_string());
                    }
                }
                let sha1 = self.add(tree, parents, msg);
                ok(&sha1)
            }
            ["update-ref", "--no-deref", "-m", _, "HEAD", value] => {
                self.head = self.resolve_rev(value).unwrap();
                self.branch = None;
                ok("")
            }
            ["update-ref", "-m", _, "-d", refname] => {
                yes_or_no(self.refs.remove(*refname).is_some())
            }
            ["update-ref", "-m", _, "--stdin"] => {
                for line in stdin.unwrap().lines() {
                    self.refs.remove(line.strip_prefix("delete ").unwrap());
                }
                ok("")
            }
            ["update-ref", "-m", _, refname, value] => {
                self.refs.insert(refname.to_string(), value.to_string());
                ok("")
            }
            ["config", "imerge.default"] => match &self.default_name {
                Some(n) => ok(n),
                None => fails(""),
            },
            ["config", "imerge.default", name] => {
                self.default_name = Some(name.to_string());
                ok("")
            }
            ["config", "--unset", _] => yes_or_no(self.default_name.take().is_some()),
            ["config", "--bool", _] => fails(""),
            ["checkout", "-f", c] => {
                self.head = self.resolve_rev(c).unwrap();
                self.branch = None;
                ok("")
            }
            ["checkout", rest @ ..] => {
                let target = rest.last().unwrap();
                let refname = format!("refs/heads/{target}");
                self.head = self.resolve_rev(target).unwrap();
                self.branch = if self.refs.contains_key(&refname) { Some(refname) } else { None };
                ok("")
            }
            ["-c", "rerere.enabled=false", rest @ ..] => {
                let other = rest.last().unwrap();
                let msg = match rest.iter().position(|a| *a == "-m") {
                    Some(i) => rest[i + 1],
                    None => "probe",
                };
                match self.merged(&self.head.clone(), other, rest.contains(&"ours")) {
                    Ok(tree) => {
                        let parents = vec![self.head.clone(), other.to_string()];
                        let sha1 = self.add(tree, parents, &format!("{msg}\n"));
                        self.set_head(&sha1);
                        ok("")
                    }
                    Err(_) => fails("conflict"),
                }
            }
            ["reset", "--merge"] => {
                self.merging = None;
                self.staged = None;
                self.conflict = false;
                ok("")
            }
            ["reset", "--hard"] => ok(""),
            ["reset", "--hard", c] => {
                let sha1 = self.resolve_rev(c).unwrap();
                self.set_head(&sha1);
                ok("")
            }
            ["merge", "--no-commit", "-m", _, other] => {
                let merged = self.merged(&self.head.clone(), other, false);
                self.conflict = merged.is_err();
                self.merging = Some(other.to_string());
                self.staged = Some(match merged {
                    Ok(t) => t,
                    Err(t) => t,
                });
                yes_or_no(!self.conflict)
            }
            ["commit", "--no-verify", _] => {
                let parents = vec![self.head.clone(), self.merging.take().unwrap()];
                let tree = self.staged.take().unwrap();
                let sha1 = self.add(tree, parents, "by hand\n");
                self.set_head(&sha1);
                ok("")
            }
            ["commit", "--amend"] => ok(""),
            ["commit-tree", tree, rest @ ..] => {
                let tree = self.tree_by_name(tree);
                let parents =
                    rest.iter().filter(|a| **a != "-p").map(|p| p.to_string()).collect();
                let sha1 = self.add(tree, parents, stdin.unwrap());
                ok(&format!("{sha1}\n"))
            }
            ["diff", base, c] => {
                let before = match self.commits.get(*base) {
                    Some(b) => b.tree.clone(),
                    None => Files::new(),
                };
                let after = &self.commits[*c].tree;
                let changed: Vec<String> = after
                    .iter()
                    .filter(|(k, v)| before.get(*k) != Some(v))
                    .map(|(k, v)| format!("{k}:{:?}->{v}", before.get(k)))
                    .collect();
                ok(&changed.join("\n"))
            }
            ["patch-id", "--stable"] => {
                ok(&format!("{} 0\n", stdin.unwrap().replace(' ', "_").replace('\n', ",")))
            }
            ["revert", "--no-edit", rest @ ..] => {
                let c = rest.last().unwrap().to_string();
                let parent = self.commits[&c].parents[0].clone();
                let mut tree = self.commits[&self.head].tree.clone();
                for (k, v) in self.commits[&c].tree.clone() {
                    let before = self.commits[&parent].tree.get(&k).cloned();
                    if before.as_ref() != Some(&v) {
                        match before {
                            Some(b) => tree.insert(k, b),
                            None => tree.remove(&k),
                        };
                    }
                }
                let msg = format!("Revert {}", self.commits[&c].msg);
                let sha1 = self.add(tree, vec![self.head.clone()], &msg);
                self.set_head(&sha1);
                ok("")
            }
            other => panic!("unknown command: {other:?}"),
        }
    }

    fn perform(&mut self, request: &Request) -> Reply {
        match request {
            Request::Git { args, stdin, env: _, loud: _ } => {
                let args: Vec<&str> = args.iter().map(|a| a.as_str()).collect();
                self.git(&args, stdin.as_deref())
            }
            Request::ReadMergeHead { .. } => match &self.merging {
                Some(m) => Reply::Text(format!("{m}\n")),
                None => Reply::Refused("no such file".to_string()),
            },
            Request::EmptyAttributesFile => Reply::Text("/tmp/empty".to_string()),
            Request::EncodeState(state) => {
                self.states.push(state.copy());
                Reply::Text(format!("{}", self.states.len() - 1))
            }
            Request::DecodeState(text) => match text.trim().parse::<usize>() {
                Ok(i) => Reply::State(self.states[i].copy()),
                Err(e) => Reply::Refused(e.to_string()),
            },
            Request::WriteFile { path, contents } => {
                self.written.insert(path.clone(), contents.clone());
                Reply::Text(String::new())
            }
        }
    }

    /// Runs a command to its end.
    fn imerge(&mut self, command: Command) -> (Result<(), String>, String, String) {
        let mut git = Git::new();
        let mut before: Vec<String> = Vec::new();
        loop {
            git.rewind();
            let result = run(&mut git, &command, false);
            let asked: Vec<String> = git.asked.iter().map(|r| format!("{r:?}")).collect();
            assert_eq!(asked[..before.len()], before[..], "the requests are the same again");
            before = asked;
            if let Err(ImergeError::Suspended) = result {
                let reply = match git.pending() {
                    Some(request) => self.perform(request),
                    None => panic!("nothing to wait for"),
                };
                git.answer(reply);
                continue;
            }
            let mut out = String::new();
            let mut err = String::new();
            for m in &git.told {
                match m {
                    Message::Stdout(t) => out.push_str(t),
                    Message::Stderr(t) => err.push_str(t),
                }
            }
            return (result.map_err(|e| e.message()), out, err);
        }
    }
}

fn text(s: &str) -> Option<String> {
    Some(s.to_string())
}

fn init(name: &str, goal: &str, tip2: &str) -> InitArgs {
    InitArgs {
        name: text(name),
        goal: goal.to_string(),
        branch: None,
        manual: false,
        dedupe_patches: true,
        first_parent: false,
        tip2: tip2.to_string(),
    }
}

fn name_args(name: &str) -> NameArgs {
    NameArgs { name: text(name) }
}

fn simplify(name: &str, goal: Option<&str>, branch: Option<&str>) -> SimplifyArgs {
    SimplifyArgs {
        name: text(name),
        goal: goal.map(|g| g.to_string()),
        branch: branch.map(|b| b.to_string()),
        force: false,
    }
}

fn edit(name: &str) -> EditArgs {
    EditArgs { name: text(name), edit: false, no_edit: false }
}

/// Two branches from `main` with these changes; `left` is checked out.
fn two_branches(left: &[(&str, &str)], right: &[(&str, &str)]) -> Repo {
    let mut repo = Repo::new();
    repo.branch("right");
    for (i, (file, content)) in right.iter().enumerate() {
        repo.commit(file, content, &format!("right{}", i + 1));
    }
    repo.switch("main");
    repo.branch("left");
    for (i, (file, content)) in left.iter().enumerate() {
        repo.commit(file, content, &format!("left{}", i + 1));
    }
    repo
}

#[test]
fn a_merge_without_conflicts_completes_and_finishes() {
    let mut repo = two_branches(&[("left", "l")], &[("right", "r")]);
    let (r, _, err) = repo.imerge(Command::Start(init("m1", "merge", "right")));
    assert_eq!(r, Ok(()));
    assert!(err.contains("Merge is complete!"));

    let (r, _, _) = repo.imerge(Command::Finish(simplify("m1", None, None)));
    assert_eq!(r, Ok(()));
    assert_eq!(repo.for_each_ref("refs/imerge", true), "");
    let result = repo.resolve_rev("HEAD").unwrap();
    assert_eq!(repo.branch, text("refs/heads/m1"));
    assert_eq!(repo.refs["refs/heads/m1"], result);
    assert_eq!(repo.commits[&result].parents.len(), 2);
    assert_eq!(
        repo.commits[&result].tree,
        files(&[("base", "base"), ("left", "l"), ("right", "r")])
    );
    assert_eq!(repo.commits[&result].msg, "Merge right into left (using imerge)");
}

#[test]
fn a_conflict_is_resolved_by_the_user() {
    let mut repo = two_branches(&[("file", "LEFT")], &[("file", "RIGHT")]);
    let (r, _, err) = repo.imerge(Command::Start(init("conf", "merge", "right")));
    assert_eq!(r, Ok(()));
    assert!(err.contains("There was a conflict merging commit 1-1, shown above."));
    assert!(err.contains("git-imerge continue"));
    assert_eq!(repo.branch, text("refs/heads/imerge/conf"));
    assert!(repo.conflict);

    let (r, _, _) = repo.imerge(Command::Finish(simplify("conf", None, None)));
    assert_eq!(r, Err("Cannot proceed: You have unstaged changes.\nAdditionally, your index contains uncommitted changes.".to_string()));

    repo.resolve_conflict("file", "MERGED");
    let (r, _, err) = repo.imerge(Command::Continue(edit("conf")));
    assert_eq!(r, Ok(()));
    assert!(err.contains("Merge has been recorded for merge 1-1."));
    assert!(err.contains("Merge is complete!"));
    assert!(repo.refs.contains_key("refs/imerge/conf/manual/1-1"));

    let (r, _, _) = repo.imerge(Command::Finish(simplify("conf", None, None)));
    assert_eq!(r, Ok(()));
    assert_eq!(repo.for_each_ref("refs/imerge", true), "");
    assert_eq!(repo.branch, text("refs/heads/conf"));
    let result = repo.resolve_rev("HEAD").unwrap();
    assert_eq!(repo.commits[&result].tree["file"], "MERGED");
}

#[test]
fn an_unfinished_merge_is_not_simplified() {
    let mut repo = two_branches(&[("file", "LEFT")], &[("file", "RIGHT")]);
    repo.imerge(Command::Init(init("m", "merge", "right"))).0.unwrap();
    let (r, _, _) = repo.imerge(Command::Simplify(simplify("m", None, None)));
    assert_eq!(r, Err("Merge m is not yet complete!".to_string()));
}

#[test]
fn a_long_merge_asks_for_the_one_pair_that_conflicts() {
    let mut repo = two_branches(
        &[("a", "1"), ("x", "left"), ("b", "1"), ("c", "1")],
        &[("d", "1"), ("e", "1"), ("x", "right"), ("f", "1")],
    );
    let (r, _, err) = repo.imerge(Command::Start(init("m", "merge", "right")));
    assert_eq!(r, Ok(()));
    assert!(err.contains("There was a conflict merging commit 2-3, shown above."), "{err}");
    let (_, out, _) = repo.imerge(Command::Diagram(DiagramArgs {
        name: None,
        commits: true,
        frontier: false,
        html: None,
        color: false,
        no_color: true,
    }));
    assert!(out.contains("#"));

    repo.resolve_conflict("x", "both");
    let (r, _, err) = repo.imerge(Command::Continue(edit("m")));
    assert_eq!(r, Ok(()));
    assert!(err.contains("Merge is complete!"), "{err}");
    let (r, _, _) = repo.imerge(Command::Finish(simplify("m", None, Some("result"))));
    assert_eq!(r, Ok(()));
    let result = repo.resolve_rev("result").unwrap();
    assert_eq!(repo.commits[&result].tree.len(), 8);
    assert_eq!(repo.commits[&result].tree["x"], "both");
}

#[test]
fn a_rebase_produces_linear_history() {
    let mut repo = Repo::new();
    repo.branch("feature");
    repo.commit("a", "1", "f1");
    repo.commit("a", "2", "f2");
    repo.switch("main");
    repo.commit("b", "1", "m1");
    repo.switch("feature");
    let (r, _, err) = repo.imerge(Command::Rebase(RebaseArgs {
        name: None,
        goal: "rebase".to_string(),
        branch: None,
        manual: false,
        dedupe_patches: true,
        first_parent: true,
        tip1: "main".to_string(),
    }));
    assert_eq!(r, Ok(()));
    assert!(err.contains("Merge is complete!"));
    assert_eq!(repo.imerge(Command::Finish(simplify("feature", None, None))).0, Ok(()));
    assert_eq!(repo.subjects("feature"), vec!["f2", "f1", "m1", "base"]);
    for c in repo.ancestors(&repo.resolve_rev("feature").unwrap()) {
        assert!(repo.commits[&c].parents.len() <= 1);
    }
}

#[test]
fn a_branch_with_merges_is_not_rebased() {
    let mut repo = two_branches(&[("l", "1")], &[("r", "1")]);
    let (left, right) =
        (repo.resolve_rev("left").unwrap(), repo.resolve_rev("right").unwrap());
    let tree = repo.merged(&left, &right, false).unwrap();
    let merge = repo.add(tree, vec![left, right], "merge\n");
    repo.set_head(&merge);
    repo.switch("main");
    repo.commit("m", "1", "m1");
    repo.switch("left");
    let (r, _, _) = repo.imerge(Command::Rebase(RebaseArgs {
        name: text("r"),
        goal: "rebase".to_string(),
        branch: None,
        manual: false,
        dedupe_patches: true,
        first_parent: true,
        tip1: "main".to_string(),
    }));
    assert_eq!(
        r,
        Err(format!(
            "The following commits on the to-be-rebased branch are merge commits:\n    {merge}\n--goal='rebase' is not yet supported for branches that include merges.\n"
        ))
    );
}

#[test]
fn a_drop_removes_a_commit_from_history() {
    let mut repo = Repo::new();
    repo.commit("a", "1", "c1");
    let dropped = repo.commit("b", "1", "c2");
    repo.commit("c", "1", "c3");
    let args = RangeArgs {
        name: text("d"),
        branch: None,
        manual: false,
        dedupe_patches: true,
        first_parent: true,
        range: dropped,
    };
    let (r, _, err) = repo.imerge(Command::Drop(args));
    assert_eq!(r, Ok(()));
    assert!(err.contains("Merge is complete!"), "{err}");
    assert_eq!(repo.imerge(Command::Finish(simplify("d", None, None))).0, Ok(()));
    assert_eq!(repo.subjects("main"), vec!["c3", "c1", "base"]);
    let tip = repo.resolve_rev("main").unwrap();
    assert_eq!(repo.commits[&tip].tree, files(&[("a", "1"), ("base", "base"), ("c", "1")]));
}

#[test]
fn a_drop_asks_where_a_later_commit_conflicts() {
    let mut repo = Repo::new();
    repo.commit("a", "c1", "c1");
    let dropped = repo.commit("a", "c1 c2", "c2");
    repo.commit("a", "c1 c2 c3", "c3");
    let (r, _, err) = repo.imerge(Command::Drop(RangeArgs {
        name: None,
        branch: None,
        manual: false,
        dedupe_patches: true,
        first_parent: true,
        range: dropped,
    }));
    assert_eq!(r, Ok(()));
    assert!(err.contains("There was a conflict merging commit 1-1, shown above."), "{err}");
    repo.resolve_conflict("a", "c1 c3");
    let none = EditArgs { name: None, edit: false, no_edit: false };
    assert_eq!(repo.imerge(Command::Continue(none)).0, Ok(()));
    let none = SimplifyArgs { name: None, goal: None, branch: None, force: false };
    assert_eq!(repo.imerge(Command::Finish(none)).0, Ok(()));
    assert_eq!(repo.subjects("main"), vec!["c3", "c1", "base"]);
    let tip = repo.resolve_rev("main").unwrap();
    assert_eq!(repo.commits[&tip].tree, files(&[("a", "c1 c3"), ("base", "base")]));
}

#[test]
fn a_drop_and_a_revert_record_the_same_branches() {
    let mut repo = Repo::new();
    repo.commit("a", "1", "c1");
    let middle = repo.commit("b", "1", "c2");
    repo.commit("c", "1", "c3");
    let tip = repo.resolve_rev("main").unwrap();
    let args = |name: &str| RangeArgs {
        name: text(name),
        branch: None,
        manual: false,
        dedupe_patches: true,
        first_parent: true,
        range: middle.clone(),
    };
    assert_eq!(repo.imerge(Command::Drop(args("d"))).0, Ok(()));
    repo.switch("main");
    assert_eq!(repo.imerge(Command::Revert(args("r"))).0, Ok(()));
    for name in ["d", "r"] {
        let at = |cell: &str| repo.refs[&format!("refs/imerge/{name}/manual/{cell}")].clone();
        assert_eq!(at("0-0"), middle);
        assert_eq!(at("1-0"), tip);
        let undone = &repo.commits[&at("0-1")];
        assert_eq!(undone.tree, files(&[("a", "1"), ("base", "base")]));
        assert_eq!(undone.parents, vec![middle.clone()]);
    }
}

#[test]
fn a_branch_is_overwritten_only_by_force() {
    let mut repo = two_branches(&[("l", "1")], &[("r", "1")]);
    repo.switch("main");
    repo.branch("other");
    let kept = repo.commit("o", "1", "o1");
    repo.switch("left");
    repo.imerge(Command::Start(init("m", "merge", "right"))).0.unwrap();
    let (r, _, _) = repo.imerge(Command::Simplify(simplify("m", None, Some("other"))));
    assert!(r.unwrap_err().starts_with("refs/heads/other cannot be fast-forwarded to "));
    let (r, _, _) = repo.imerge(Command::Simplify(simplify("m", Some("rebase"), Some("other"))));
    assert!(r.unwrap_err().ends_with(
        " without discarding history.\nUse --force if you are sure, or choose a different reference"
    ));
    assert_eq!(repo.refs["refs/heads/other"], kept);
    let mut args = simplify("m", Some("merge"), Some("other"));
    args.force = true;
    assert_eq!(repo.imerge(Command::Finish(args)).0, Ok(()));
    let subjects = vec!["Merge right into left (using imerge)", "left1", "base"];
    assert_eq!(repo.subjects("other"), subjects);
}

#[test]
fn a_revert_keeps_the_commit_and_undoes_it() {
    let mut repo = Repo::new();
    repo.commit("a", "1", "c1");
    let reverted = repo.commit("b", "1", "c2");
    repo.commit("c", "1", "c3");
    let range = format!("{}..{reverted}", repo.commits[&reverted].parents[0]);
    let args = RangeArgs {
        name: text("r"),
        branch: None,
        manual: false,
        dedupe_patches: true,
        first_parent: true,
        range,
    };
    assert_eq!(repo.imerge(Command::Revert(args)).0, Ok(()));
    assert_eq!(repo.imerge(Command::Finish(simplify("r", None, None))).0, Ok(()));
    assert_eq!(repo.subjects("main"), vec!["Revert c2", "c3", "c2", "c1", "base"]);
    let tip = repo.resolve_rev("main").unwrap();
    assert_eq!(repo.commits[&tip].tree, files(&[("a", "1"), ("base", "base"), ("c", "1")]));
}

#[test]
fn a_range_with_more_dots_is_refused() {
    let mut repo = Repo::new();
    let args = RangeArgs {
        name: text("r"),
        branch: None,
        manual: false,
        dedupe_patches: true,
        first_parent: true,
        range: "a...b".to_string(),
    };
    assert_eq!(
        repo.imerge(Command::Drop(args)).0,
        Err("Range must either be a single commit or in the form \"commit..commit\"".to_string())
    );
}

#[test]
fn list_and_remove_manage_several() {
    let mut repo = two_branches(&[("l", "1")], &[("r", "1")]);
    repo.imerge(Command::Init(init("alpha", "merge", "right"))).0.unwrap();
    repo.imerge(Command::Init(init("beta", "merge", "right"))).0.unwrap();
    assert_eq!(repo.default_name, text("beta"));
    assert_eq!(repo.imerge(Command::List).1, "  alpha\n* beta\n");

    assert_eq!(repo.imerge(Command::Remove(name_args("alpha"))).0, Ok(()));
    assert_eq!(repo.imerge(Command::List).1, "* beta\n");
    assert_eq!(repo.imerge(Command::Remove(name_args("beta"))).0, Ok(()));
    assert_eq!(repo.imerge(Command::List).1, "");
    assert_eq!(repo.for_each_ref("refs/imerge", true), "");
    assert_eq!(repo.default_name, None);
}

#[test]
fn a_name_is_used_once() {
    let mut repo = two_branches(&[("l", "1")], &[("r", "1")]);
    repo.imerge(Command::Init(init("m", "merge", "right"))).0.unwrap();
    assert_eq!(
        repo.imerge(Command::Init(init("m", "merge", "right"))).0,
        Err("Name 'm' is already in use!".to_string())
    );
    assert_eq!(
        repo.imerge(Command::Remove(name_args("n"))).0,
        Err("There is no incremental merge called 'n'!".to_string())
    );
    assert_eq!(
        repo.imerge(Command::Init(init("a b", "merge", "right"))).0,
        Err("Name 'a b' is not a valid refname component!".to_string())
    );
}

#[test]
fn a_goal_has_to_be_known() {
    let mut repo = two_branches(&[("l", "1")], &[("r", "1")]);
    assert_eq!(
        repo.imerge(Command::Init(init("m", "squash", "right"))).0,
        Err("invalid --goal \"squash\" (choose from full, rebase, rebase-with-history, border, border-with-history, border-with-history2, merge, drop, revert)".to_string())
    );
}

#[test]
fn nothing_to_merge_is_up_to_date() {
    let mut repo = Repo::new();
    repo.branch("topic");
    repo.commit("a", "1", "a1");
    let args = MergeArgs {
        name: None,
        goal: "merge".to_string(),
        branch: None,
        manual: false,
        dedupe_patches: true,
        first_parent: true,
        tip2: "main".to_string(),
    };
    let (r, out, _) = repo.imerge(Command::Merge(args));
    assert_eq!(r, Ok(()));
    assert_eq!(out, "Already up-to-date.\n");
    assert_eq!(
        repo.imerge(Command::Init(init("m", "merge", "main"))).0,
        Err("nothing to do".to_string())
    );
}

#[test]
fn a_full_merge_fills_every_cell() {
    let mut repo = two_branches(&[("a", "1"), ("b", "1")], &[("c", "1"), ("d", "1")]);
    let (r, _, err) = repo.imerge(Command::Start(init("m", "full", "right")));
    assert_eq!(r, Ok(()));
    assert!(err.contains("Attempting to merge 2-2...success."));
    for cell in ["1-1", "1-2", "2-1", "2-2"] {
        assert!(repo.refs.contains_key(&format!("refs/imerge/m/auto/{cell}")));
    }
    assert_eq!(
        repo.imerge(Command::Finish(simplify("m", None, Some("result")))).0,
        Ok(())
    );
    let tip = repo.resolve_rev("result").unwrap();
    assert_eq!(repo.commits[&tip].msg, "imerge 'm': automatic merge 2-2\n");
}

#[test]
fn every_goal_gives_the_same_tree() {
    for (goal, parents) in [
        ("merge", 2),
        ("border", 2),
        ("border-with-history", 2),
        ("border-with-history2", 2),
        ("rebase-with-history", 2),
        ("rebase", 1),
    ] {
        let mut repo = two_branches(&[("a", "1"), ("b", "1")], &[("c", "1"), ("d", "1")]);
        repo.imerge(Command::Start(init("m", goal, "right"))).0.unwrap();
        let (r, _, _) = repo.imerge(Command::Simplify(simplify("m", None, Some("result"))));
        assert_eq!(r, Ok(()), "{goal}");
        let tip = repo.resolve_rev("result").unwrap();
        assert_eq!(repo.commits[&tip].tree.len(), 5, "{goal}");
        assert_eq!(repo.commits[&tip].parents.len(), parents, "{goal}");
    }
}

#[test]
fn a_goal_can_be_changed_at_the_end() {
    let mut repo = two_branches(&[("a", "1")], &[("c", "1"), ("d", "1")]);
    repo.imerge(Command::Start(init("m", "merge", "right"))).0.unwrap();
    let (r, _, _) =
        repo.imerge(Command::Simplify(simplify("m", Some("rebase-with-history"), Some("result"))));
    assert_eq!(r, Ok(()));
    let tip = repo.resolve_rev("result").unwrap();
    let right = repo.resolve_rev("right").unwrap();
    assert_eq!(
        repo.commits[&tip].msg,
        format!("right2\n\n(rebased-with-history from commit {right})\n")
    );
    assert_eq!(repo.commits[&tip].parents[1], right);
}

#[test]
fn manual_merges_are_asked_for_one_by_one() {
    let mut repo = two_branches(&[("a", "1")], &[("c", "1")]);
    let mut args = init("m", "merge", "right");
    args.manual = true;
    let (r, _, err) = repo.imerge(Command::Start(args));
    assert_eq!(r, Ok(()));
    assert!(err.contains("There was a conflict merging commit 1-1, shown above."));
    assert_eq!(repo.branch, text("refs/heads/imerge/m"));
}

#[test]
fn autofill_restores_what_was_checked_out() {
    let mut repo = two_branches(&[("a", "1"), ("x", "l")], &[("c", "1"), ("x", "r")]);
    repo.imerge(Command::Init(init("m", "merge", "right"))).0.unwrap();
    let left = repo.resolve_rev("left").unwrap();
    let (r, _, _) = repo.imerge(Command::Autofill(name_args("m")));
    assert_eq!(r, Err("Conflict; suggest manual merge of 2-2".to_string()));
    assert_eq!(repo.branch, text("refs/heads/left"));
    assert_eq!(repo.head, left);
    let (r, _, _) = repo.imerge(Command::Autofill(name_args("m")));
    assert_eq!(r, Err("No progress was possible; suggest manual merge of 2-2".to_string()));
}

#[test]
fn record_does_not_ask_for_the_next_merge() {
    let mut repo = two_branches(&[("x", "l")], &[("x", "r"), ("x", "s")]);
    repo.imerge(Command::Start(init("m", "merge", "right"))).0.unwrap();
    repo.resolve_conflict("x", "first");
    let (r, _, err) = repo.imerge(Command::Record(edit("m")));
    assert_eq!(r, Ok(()));
    assert!(err.contains("Merge has been recorded for merge 1-1."));
    assert!(!err.contains("git-imerge continue"));
    assert_eq!(repo.branch, None);
}

#[test]
fn a_diagram_shows_merges_and_tips() {
    let mut repo = two_branches(&[("l", "1")], &[("r", "1")]);
    repo.imerge(Command::Start(init("d1", "merge", "right"))).0.unwrap();
    let (r, out, _) = repo.imerge(Command::Diagram(DiagramArgs {
        name: text("d1"),
        commits: false,
        frontier: false,
        html: text("page.html"),
        color: false,
        no_color: true,
    }));
    assert_eq!(r, Ok(()));
    assert_eq!(
        out,
        "       0 1\n       | /\n   0 - ** - left\n   1 - *+\n       |\n     right\n\nKey:\n  |,-,+ = rectangles forming current merge frontier\n  * = merge done manually\n  . = merge done automatically\n  # = conflict that is currently blocking progress\n  @ = merge was blocked but has been resolved\n  ? = no merge recorded\n"
    );
    let page = &repo.written["page.html"];
    assert!(page.contains("<title>git-imerge: d1</title>"));
    assert!(page.contains("class=\"merge_automatic frontier_within"));
}

#[test]
fn reparenting_carries_on_to_the_current_commit() {
    let mut repo = Repo::new();
    let c1 = repo.commit("a", "1", "c1");
    let c2 = repo.commit("b", "1", "c2");
    let c3 = repo.commit("c", "1", "c3");
    let base = repo.commits[&c1].parents[0].clone();
    let (r, out, _) = repo.imerge(Command::Reparent(ReparentArgs {
        commit: c2.clone(),
        parents: vec![base.clone()],
    }));
    assert_eq!(r, Ok(()));
    let new_head = out.trim().to_string();
    assert_eq!(repo.commits[&new_head].tree, repo.commits[&c3].tree);
    assert_eq!(repo.commits[&new_head].msg, "c3\n");
    let new_c2 = &repo.commits[&new_head].parents[0];
    assert_eq!(repo.commits[new_c2].parents, vec![base]);
    assert_eq!(repo.commits[new_c2].msg, "c2\n");
}

#[test]
fn reparenting_needs_an_ancestor() {
    let mut repo = two_branches(&[("l", "1")], &[("r", "1")]);
    let right = repo.resolve_rev("right").unwrap();
    let left = repo.resolve_rev("left").unwrap();
    let (r, _, _) =
        repo.imerge(Command::Reparent(ReparentArgs { commit: right.clone(), parents: vec![] }));
    assert_eq!(r, Err(format!("{right} is not an ancestor of {left}")));
}

#[test]
fn each_merge_has_one_ref() {
    let mut repo = two_branches(&[("l", "1")], &[("r", "1")]);
    repo.imerge(Command::Start(init("m", "merge", "right"))).0.unwrap();
    assert_eq!(
        repo.for_each_ref("refs/imerge", true),
        "refs/imerge/m/auto/1-1\nrefs/imerge/m/manual/0-0\nrefs/imerge/m/manual/0-1\nrefs/imerge/m/manual/1-0\nrefs/imerge/m/state\n"
    );
    assert_eq!(repo.refs["refs/imerge/m/manual/1-0"], repo.refs["refs/heads/left"]);
    assert_eq!(repo.refs["refs/imerge/m/manual/0-1"], repo.refs["refs/heads/right"]);
    assert_eq!(repo.refs["refs/imerge/m/manual/0-0"], repo.refs["refs/heads/main"]);
    let merge = &repo.commits[&repo.refs["refs/imerge/m/auto/1-1"]];
    assert_eq!(merge.tree, files(&[("base", "base"), ("l", "1"), ("r", "1")]));
}

#[test]
fn what_was_saved_is_read_back() {
    let mut repo = two_branches(&[("a", "1"), ("x", "l")], &[("c", "1"), ("x", "r")]);
    repo.imerge(Command::Start(init("m", "merge", "right"))).0.unwrap();
    let all = repo.for_each_ref("refs/imerge", false);
    repo.imerge(Command::Continue(edit("m"))).0.unwrap_err();
    // The conflict is still open, and nothing was lost.
    assert_eq!(repo.for_each_ref("refs/imerge", false), all);
    let state = &repo.states[repo.states.len() - 1];
    assert_eq!(state.version, "1.3.0");
    assert_eq!(state.blockers, vec![(2, 2)]);
    assert_eq!(state.tip1, text("left"));
    assert_eq!(state.tip2, text("right"));
    assert_eq!(state.goal, "merge");
    assert_eq!(state.branch, text("m"));
}
