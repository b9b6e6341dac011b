//! Single operations, with the replies of git written down.
use git_imerge::block::{Grid, MergeRecord, Rect};
use git_imerge::error::ImergeError;
use git_imerge::expand::{find_frontier_blocks, initiate_merge};
use git_imerge::git::{AutomergeOutcome, Git};
use git_imerge::imerge::{scratch_refname, MergeState};
use git_imerge::state::{GoalOpts, StateDict};
use git_imerge::strategy::Frontier;
use git_imerge::talk::{Message, Output, Reply, Request};

fn ok(text: &str) -> Reply {
    Reply::Output(Output { success: true, stdout: text.to_string(), stderr: String::new() })
}

fn fails(text: &str) -> Reply {
    Reply::Output(Output { success: false, stdout: String::new(), stderr: text.to_string() })
}

fn git_with(replies: Vec<Reply>) -> Git {
    let mut git = Git::new();
    for reply in replies {
        git.answer(reply);
    }
    git
}

/// The arguments of the `git` commands that were asked for.
fn commands(git: &Git) -> Vec<String> {
    git.asked
        .iter()
        .map(|r| match r {
            Request::Git { args, .. } => args.join(" "),
            other => format!("{other:?}"),
        })
        .collect()
}

fn stderr(git: &Git) -> String {
    git.told
        .iter()
        .map(|m| match m {
            Message::Stderr(t) => t.clone(),
            Message::Stdout(_) => String::new(),
        })
        .collect()
}

fn state_dict(version: &str) -> StateDict {
    StateDict {
        version: version.to_string(),
        blockers: vec![],
        tip1: Some("left".to_string()),
        tip2: Some("right".to_string()),
        goal: "merge".to_string(),
        goalopts: None,
        manual: false,
        dedupe_patches: true,
        branch: Some("b".to_string()),
    }
}

/// A grid whose branches have the commits `a1..` and `b1..`.
fn edge_grid(len1: usize, len2: usize) -> Grid {
    let mut grid = Grid::new("t", len1, len2);
    grid.get_mut(0, 0).record_merge("base", MergeRecord::NEW_MANUAL);
    for i in 1..len1 {
        grid.get_mut(i, 0).record_merge(&format!("a{i}"), MergeRecord::NEW_MANUAL);
    }
    for i in 1..len2 {
        grid.get_mut(0, i).record_merge(&format!("b{i}"), MergeRecord::NEW_MANUAL);
    }
    grid
}

fn failure_text<T>(r: Result<T, ImergeError>) -> String {
    match r {
        Err(ImergeError::Failure(m)) => m,
        Err(e) => panic!("another error: {e:?}"),
        Ok(_) => panic!("no error"),
    }
}

// -- asking and answering -------------------------------------------------

#[test]
fn an_operation_waits_for_its_reply() {
    let mut git = Git::new();
    assert!(git.pending().is_none());
    assert!(matches!(git.git_dir(), Err(ImergeError::Suspended)));
    assert_eq!(commands(&git), vec!["rev-parse --git-dir"]);
    assert!(git.pending().is_some());
    // While it waits, nothing else is asked.
    assert!(matches!(git.abort_merge(), Err(ImergeError::Suspended)));
    assert_eq!(git.asked.len(), 1);

    git.answer(ok(".git\n\n"));
    git.rewind();
    assert!(git.asked.is_empty());
    assert_eq!(git.git_dir().unwrap(), ".git");
    assert!(git.pending().is_none());
}

#[test]
fn a_command_that_fails_or_does_not_start_is_an_error() {
    let mut git = git_with(vec![fails(" bad \n")]);
    assert_eq!(failure_text(git.git_dir()), "'git rev-parse --git-dir' failed: bad");
    let mut git = git_with(vec![Reply::Refused("no git".to_string())]);
    assert_eq!(failure_text(git.git_dir()), "could not run 'git rev-parse --git-dir': no git");
    let mut git = git_with(vec![Reply::Broken("pipe".to_string())]);
    assert_eq!(failure_text(git.git_dir()), "pipe");
    let mut git = git_with(vec![Reply::Text("?".to_string())]);
    assert_eq!(failure_text(git.git_dir()), "unexpected reply to 'git rev-parse --git-dir'");
}

#[test]
fn an_unknown_revision_is_shown_quoted() {
    let mut git = git_with(vec![fails("")]);
    assert_eq!(failure_text(git.rev_parse_required("a\"b")), "\"a\\\"b\" is not a valid revision");
    let mut git = git_with(vec![fails("")]);
    assert_eq!(
        failure_text(git.get_commit_sha1("x\ty")),
        "\"x\\ty\" does not refer to a valid git commit"
    );
    assert_eq!(commands(&git), vec!["rev-parse --verify --quiet x\ty^{commit}"]);
}

#[test]
fn an_unclean_work_tree_is_explained() {
    let mut git = git_with(vec![ok(""), ok(""), fails(""), ok("")]);
    assert!(matches!(
        git.require_clean_work_tree("go"),
        Err(ImergeError::UncleanWorkTree(m)) if m == "Cannot go: You have unstaged changes."
    ));
    let mut git = git_with(vec![ok(""), ok(""), ok(""), fails("")]);
    assert!(matches!(
        git.require_clean_work_tree("go"),
        Err(ImergeError::UncleanWorkTree(m))
            if m == "Cannot go: Your index contains uncommitted changes."
    ));
    let mut git = git_with(vec![ok(""), ok(""), fails(""), fails("")]);
    assert!(matches!(
        git.require_clean_work_tree("go"),
        Err(ImergeError::UncleanWorkTree(m))
            if m == "Cannot go: You have unstaged changes.\nAdditionally, your index contains uncommitted changes."
    ));
    let mut git = git_with(vec![ok(""), ok(""), ok(""), ok("")]);
    assert!(git.require_clean_work_tree("go").is_ok());
}

#[test]
fn a_merge_by_the_user_is_committed_as_wished() {
    let replies = || vec![ok(".git"), Reply::Text("c1\n".to_string()), ok(""), ok(""), ok("")];
    let mut git = git_with(replies());
    assert!(git.commit_user_merge(Some(true)).unwrap());
    assert_eq!(commands(&git)[4], "commit --no-verify --edit");
    let mut git = git_with(replies());
    assert!(git.commit_user_merge(Some(false)).unwrap());
    assert_eq!(commands(&git)[4], "commit --no-verify --no-edit");
    // Two heads are no simple merge.
    let mut git = git_with(vec![ok(".git"), Reply::Text("c1\nc2\n".to_string())]);
    assert!(!git.commit_user_merge(None).unwrap());
}

#[test]
fn branches_and_commits_are_checked_out_differently() {
    let mut git = git_with(vec![ok(""), ok("")]);
    git.checkout("refs/heads/topic", true).unwrap();
    git.checkout("c1", false).unwrap();
    assert_eq!(commands(&git), vec!["checkout --quiet topic", "checkout c1^0"]);
}

#[test]
fn a_ref_that_does_not_exist_can_be_fast_forwarded() {
    let mut git = git_with(vec![fails("")]);
    assert!(git.is_ff("refs/heads/new", "c1").unwrap());
    let mut git = git_with(vec![ok("c0"), ok("0\n")]);
    assert!(!git.is_ff("refs/heads/other", "c1").unwrap());
    let mut git = git_with(vec![ok("c0"), ok("3\n")]);
    assert!(git.is_ff("refs/heads/other", "c1").unwrap());
    let mut git = git_with(vec![]);
    assert!(git.is_ancestor("c1", "c1").unwrap());
}

// -- history ----------------------------------------------------------------

#[test]
fn the_nearest_merge_base_is_chosen() {
    let mut git = git_with(vec![ok("m1\nm2\nm3\n"), ok("5\n"), ok("2\n"), ok("2\n")]);
    assert_eq!(git.compute_best_merge_base("x", "y").unwrap(), "m2");
    let mut git = git_with(vec![fails("")]);
    assert_eq!(
        failure_text(git.compute_best_merge_base("x", "y")),
        "Cannot compute merge base for \"x\" and \"y\""
    );
    let mut git = git_with(vec![ok("")]);
    assert_eq!(
        failure_text(git.compute_best_merge_base("x", "y")),
        "\"x\" and \"y\" do not have a common merge base"
    );
}

#[test]
fn a_linear_chain_is_oldest_first() {
    let mut git = git_with(vec![ok("o\n"), ok("t\n"), ok("t s\ns o\n")]);
    assert_eq!(git.linear_ancestry("a", "b", false).unwrap(), vec!["s", "t"]);
    assert_eq!(
        commands(&git)[2],
        "log --format=%H %P --ancestry-path --topo-order o..t"
    );
    let mut git = git_with(vec![ok("o\n"), ok("o\n"), ok("")]);
    assert!(git.linear_ancestry("a", "b", false).unwrap().is_empty());
}

#[test]
fn a_fork_is_an_error_unless_first_parents_count() {
    let replies = || vec![ok("o\n"), ok("t\n"), ok("t s r\ns o\nr o\n")];
    let mut git = git_with(replies());
    assert!(matches!(
        git.linear_ancestry("a", "b", false),
        Err(ImergeError::NonlinearAncestry(m))
            if m == "a..b has non-linear ancestry (it contains a merge); git-imerge needs a single linear chain of commits"
    ));
    let mut git = git_with(replies());
    assert_eq!(git.linear_ancestry("a", "b", true).unwrap(), vec!["s", "t"]);
}

#[test]
fn no_way_back_is_an_error() {
    let mut git = git_with(vec![ok("o\n"), ok("t\n"), ok("")]);
    assert!(matches!(
        git.linear_ancestry("a", "b", false),
        Err(ImergeError::NotFirstParentAncestor(m)) if m == "a is not an ancestor of b"
    ));
    let mut git = git_with(vec![ok("o\n"), ok("t\n"), ok("t s\ns t\n")]);
    assert_eq!(failure_text(git.linear_ancestry("a", "b", false)), "a..b has no beginning");
}

#[test]
fn a_log_message_ends_with_a_line_feed() {
    let mut git = git_with(vec![ok("tree t\n\nsubject\n\nbody\n\n")]);
    assert_eq!(git.get_log_message("c").unwrap(), "subject\n\nbody\n");
    let mut git = git_with(vec![ok("tree t\n")]);
    assert_eq!(git.get_log_message("c").unwrap(), "");
}

#[test]
fn an_author_needs_three_lines() {
    let mut git = git_with(vec![ok("A\na@b\n2020-01-01\n")]);
    let pairs = git.get_author_info("c").unwrap();
    assert_eq!(pairs[0], ("GIT_AUTHOR_NAME".to_string(), "A".to_string()));
    assert_eq!(pairs[1], ("GIT_AUTHOR_EMAIL".to_string(), "a@b".to_string()));
    assert_eq!(pairs[2], ("GIT_AUTHOR_DATE".to_string(), "2020-01-01".to_string()));
    let mut git = git_with(vec![ok("A\n")]);
    assert_eq!(failure_text(git.get_author_info("c")), "could not read author info for c");
}

#[test]
fn a_patch_id_is_asked_for_once() {
    let mut git = git_with(vec![ok("p\n"), ok("the diff\n"), ok("id0 c\n")]);
    assert_eq!(git.patch_id("c").unwrap(), Some("id0".to_string()));
    assert_eq!(git.patch_id("c").unwrap(), Some("id0".to_string()));
    assert_eq!(commands(&git)[1..], ["diff p c", "patch-id --stable"]);
    assert!(matches!(&git.asked[2], Request::Git { stdin: Some(s), .. } if s == "the diff\n"));
    // Another commit in between changes nothing.
    let replies = vec![ok("p\n"), ok("one"), ok("id1 c\n"), ok("c\n"), ok("two"), ok("id2 d\n")];
    let mut git = git_with(replies);
    assert_eq!(git.patch_id("c").unwrap(), Some("id1".to_string()));
    assert_eq!(git.patch_id("d").unwrap(), Some("id2".to_string()));
    assert_eq!(git.patch_id("c").unwrap(), Some("id1".to_string()));
    assert_eq!(git.patch_id("d").unwrap(), Some("id2".to_string()));
    assert_eq!(git.asked.len(), 6);
    // A merge has none, and a root commit is compared with the empty tree.
    let mut git = git_with(vec![ok("p q\n")]);
    assert_eq!(git.patch_id("m").unwrap(), None);
    assert_eq!(git.patch_id("m").unwrap(), None);
    let mut git = git_with(vec![ok("\n"), ok(""), ok("\n")]);
    assert_eq!(git.patch_id("r").unwrap(), None);
    assert_eq!(commands(&git)[1], "diff 4b825dc642cb6eb9a060e54bf8d69288fbee4904 r");
}

#[test]
fn reparenting_keeps_all_but_the_parents() {
    let text = "tree t\nparent p\nparent q\nauthor A\n\nsubject\n\n\n";
    let mut git = git_with(vec![ok(text), ok("n\n")]);
    let parents = vec!["x".to_string()];
    assert_eq!(git.reparent("c", &parents, None).unwrap(), "n");
    assert!(matches!(
        &git.asked[1],
        Request::Git { stdin: Some(s), .. } if s == "tree t\nparent x\nauthor A\n\nsubject\n\n\n"
    ));
    let mut git = git_with(vec![ok(text), ok("n\n")]);
    let parents = vec!["p".to_string(), "q".to_string()];
    git.reparent("c", &parents, None).unwrap();
    assert!(matches!(&git.asked[1], Request::Git { stdin: Some(s), .. } if s == text));
    let mut git = git_with(vec![ok(text), ok("n\n")]);
    git.reparent("c", &vec![], Some("new")).unwrap();
    assert!(matches!(
        &git.asked[1],
        Request::Git { stdin: Some(s), .. } if s == "tree t\nauthor A\n\nnew\n"
    ));
    let mut git = git_with(vec![ok("no blank line")]);
    assert_eq!(
        failure_text(git.reparent("c", &parents, None)),
        "could not parse commit object c"
    );
    let mut git = git_with(vec![ok(text), fails("x")]);
    assert_eq!(failure_text(git.reparent("c", &parents, None)), "Could not reparent commit c");
}

#[test]
fn a_chain_reuses_what_is_right_already() {
    let path = vec![
        ("c1".to_string(), "c1".to_string()),
        ("c2".to_string(), "c2".to_string()),
    ];
    let mut git = git_with(vec![
        ok("base\n"),
        ok("elsewhere\n"),
        ok("tree2\n"),
        ok("tree t\n\nsubject\n"),
        ok("A\nb\nc\n"),
        ok("new\n"),
    ]);
    assert_eq!(git.create_commit_chain(Some("base"), &path).unwrap(), "new");
    assert_eq!(commands(&git)[5], "commit-tree tree2 -p c1");
    let mut git = git_with(vec![]);
    assert_eq!(git.create_commit_chain(Some("base"), &vec![]).unwrap(), "base");
    assert_eq!(
        failure_text(git.create_commit_chain(None, &vec![])),
        "neither base nor path specified"
    );
}

// -- automatic merges -----------------------------------------------------

#[test]
fn a_conflict_is_aborted() {
    let mut git = git_with(vec![ok(""), fails("CONFLICT"), ok("")]);
    assert!(matches!(git.automerge("a", "b", Some("msg")).unwrap(), AutomergeOutcome::Conflict));
    assert_eq!(
        commands(&git),
        vec!["checkout -f a", "-c rerere.enabled=false merge -m msg b", "reset --merge"]
    );
    let mut git = git_with(vec![ok(""), ok(""), ok("m\n")]);
    assert!(matches!(
        git.automerge("a", "b", None).unwrap(),
        AutomergeOutcome::Success(m) if m == "m"
    ));
    let mut git = git_with(vec![fails(" no\n")]);
    assert_eq!(failure_text(git.automerge("a", "b", None)), "'git checkout -f a' failed: no");
}

#[test]
fn the_same_change_on_both_sides_is_merged() {
    let replies = || {
        vec![
            ok(""),
            fails("CONFLICT"),
            ok(""),
            ok("base\n"),
            ok("diff"),
            ok("same x\n"),
            ok("base\n"),
            ok("diff"),
            ok("same y\n"),
            Reply::Text("/tmp/e".to_string()),
            ok(""),
            ok(""),
            ok("m\n"),
        ]
    };
    let mut grid = edge_grid(2, 2);
    let mut git = git_with(replies());
    let full = Rect::full(2, 2);
    assert!(full.auto_fill_micromerge(&mut git, &mut grid, 1, 1).unwrap());
    assert_eq!(
        commands(&git)[11],
        "-c rerere.enabled=false -c core.attributesFile=/tmp/e merge -X ours -m imerge 't': automatic merge 1-1 b1"
    );
    assert_eq!(grid.get(1, 1).sha1, Some("m".to_string()));
    assert_eq!(stderr(&git), "Attempting to merge 1-1...success.\n");

    // Switched off, or with different changes, it stays a conflict.
    let mut grid = edge_grid(2, 2);
    grid.dedupe_patches = false;
    let mut git = git_with(replies());
    assert!(!full.auto_fill_micromerge(&mut git, &mut grid, 1, 1).unwrap());
    assert_eq!(git.asked.len(), 3);
    assert!(grid.is_blocked(1, 1));
    let mut grid = edge_grid(2, 2);
    let mut other = replies();
    other[8] = ok("different y\n");
    let mut git = git_with(other);
    assert!(!full.auto_fill_micromerge(&mut git, &mut grid, 1, 1).unwrap());
    assert_eq!(git.asked.len(), 9);
}

#[test]
fn a_known_cell_is_mergeable_without_asking() {
    let mut grid = edge_grid(2, 2);
    grid.get_mut(1, 1).record_merge("m", MergeRecord::NEW_AUTO);
    let mut git = git_with(vec![]);
    assert!(Rect::full(2, 2).is_mergeable(&mut git, &grid, -1, -1).unwrap());
    assert!(git.asked.is_empty());
    assert_eq!(
        failure_text(Rect::full(2, 2).is_mergeable(&mut git, &grid, 2, 0)),
        "first index (2) is out of range 0:2"
    );
    assert_eq!(
        failure_text(Rect::full(2, 2).is_mergeable(&mut git, &grid, 0, -3)),
        "second index (-3) is out of range 0:2"
    );
}

#[test]
fn an_outline_is_recorded_as_a_whole() {
    // Two rows: one merge on the lower edge, one in the corner.
    let mut grid = edge_grid(3, 2);
    let mut git = git_with(vec![ok(""), ok(""), ok("m11\n"), ok(""), ok(""), ok("m21\n")]);
    Rect::full(3, 2).auto_outline(&mut git, &mut grid).unwrap();
    assert_eq!(grid.get(1, 1).sha1, Some("m11".to_string()));
    assert_eq!(grid.get(2, 1).sha1, Some("m21".to_string()));
    assert_eq!(
        stderr(&git),
        "Autofilling 1-1...success.\nAutofilling 2-1...success.\nRecording autofilled block [0:3,0:2].\n"
    );

    // A conflict in the corner: nothing is recorded.
    let mut grid = edge_grid(3, 2);
    grid.dedupe_patches = false;
    let mut git = git_with(vec![ok(""), ok(""), ok("m11\n"), ok(""), fails(""), ok("")]);
    match Rect::full(3, 2).auto_outline(&mut git, &mut grid) {
        Err(ImergeError::UnexpectedMergeFailure { i1, i2, msg }) => {
            assert_eq!((i1, i2), (2, 1));
            assert_eq!(msg, "automatic merge of a2 and m11 failed");
        }
        other => panic!("{other:?}"),
    }
    assert!(!grid.is_known(1, 1));
}

#[test]
fn both_ways_to_a_corner_have_to_agree() {
    let replies = |tree2: &str| {
        let mut v = vec![];
        for m in ["m12", "m21", "v1", "v2"] {
            v.push(ok(""));
            v.push(ok(""));
            v.push(ok(m));
        }
        v.push(ok("tree1"));
        v.push(ok(tree2));
        v.push(ok("tree tree1\nparent x\n\nm\n"));
        v.push(ok("vertex\n"));
        v
    };
    let mut grid = edge_grid(3, 3);
    let mut git = git_with(replies("tree1"));
    Rect::full(3, 3).auto_outline(&mut git, &mut grid).unwrap();
    assert_eq!(grid.get(2, 2).sha1, Some("vertex".to_string()));
    assert!(stderr(&git).contains("The two ways of autofilling 2-2 agree.\n"));

    let mut grid = edge_grid(3, 3);
    let mut git = git_with(replies("tree2"));
    assert!(matches!(
        Rect::full(3, 3).auto_outline(&mut git, &mut grid),
        Err(ImergeError::UnexpectedMergeFailure { i1: 2, i2: 2, msg })
            if msg == "Inconsistent vertex merges"
    ));
    assert!(!grid.is_known(1, 2));
}

#[test]
fn nothing_mergeable_blocks_the_first_cell() {
    let mut grid = edge_grid(3, 3);
    grid.dedupe_patches = false;
    let conflict = || vec![ok(""), fails(""), ok("")];
    let mut replies = conflict();
    replies.extend(conflict());
    let mut git = git_with(replies);
    let found = find_frontier_blocks(&mut git, &mut grid, Rect::full(3, 3)).unwrap();
    assert!(found.is_empty());
    assert!(grid.is_blocked(1, 1));
    assert_eq!(
        stderr(&git),
        "Attempting automerge of 2-2...failure.\nAttempting automerge of 1-1...failure.\n"
    );
    // A blocked first cell is not tried again.
    let mut git = git_with(vec![]);
    let (top, blocks) = initiate_merge(&mut git, &mut grid, Rect::full(3, 3)).unwrap();
    assert_eq!(top, Rect::full(3, 3));
    assert!(blocks.is_empty());
}

#[test]
fn a_staircase_is_found_step_by_step() {
    // How far each commit of the first branch can be merged.
    let heights: [usize; 5] = [4, 4, 2, 2, 1];
    let mut outcomes: Vec<bool> = vec![];
    let mut commit = 0;
    let found = loop {
        let replies = outcomes.iter().map(|good| if *good { ok("") } else { fails("") });
        let mut git = git_with(replies.collect());
        let mut grid = edge_grid(5, 5);
        grid.dedupe_patches = false;
        match find_frontier_blocks(&mut git, &mut grid, Rect::full(5, 5)) {
            Err(ImergeError::Suspended) => {}
            other => break other.unwrap(),
        }
        let asked = commands(&git).pop().unwrap();
        let word = asked.split(' ').last().unwrap();
        let number = |w: &str| w[1..].parse::<usize>().unwrap();
        if asked.starts_with("checkout -f a") {
            commit = number(word);
        }
        outcomes.push(!word.starts_with('b') || number(word) <= heights[commit]);
    };
    let sizes: Vec<(usize, usize)> = found.iter().map(|b| (b.len1, b.len2)).collect();
    assert_eq!(sizes, vec![(2, 5), (4, 3), (5, 2)]);
}

// -- frontiers ---------------------------------------------------------------

#[test]
fn a_full_frontier_stops_at_the_first_conflict() {
    let mut grid = edge_grid(2, 2);
    grid.dedupe_patches = false;
    let frontier = Frontier::Full(Rect::full(2, 2));
    let mut git = git_with(vec![ok(""), fails(""), ok("")]);
    match frontier.auto_expand(&mut git, &mut grid) {
        Err(ImergeError::FrontierBlocked { i1, i2, msg }) => {
            assert_eq!((i1, i2), (1, 1));
            assert_eq!(msg, "Conflict; suggest manual merge of 1-1");
        }
        other => panic!("{other:?}"),
    }
    assert!(grid.is_blocked(1, 1));
    frontier.incorporate_merge(&mut grid, 1, 1).unwrap();
    assert!(!grid.is_blocked(1, 1));
    assert!(matches!(
        frontier.incorporate_merge(&mut grid, 1, 1),
        Err(ImergeError::NotABlockingCommit(m)) if m == "Commit 1-1 was not on the frontier."
    ));
    let mut git = git_with(vec![ok(""), ok(""), ok("m")]);
    assert!(matches!(
        frontier.auto_expand(&mut git, &mut grid),
        Err(ImergeError::BlockComplete)
    ));
    assert!(frontier.is_complete(&grid).unwrap());
}

#[test]
fn a_manual_frontier_asks_row_by_row() {
    let mut grid = edge_grid(3, 3);
    grid.get_mut(1, 1).record_merge("m11", MergeRecord::NEW_MANUAL);
    let frontier = Frontier::Manual(Rect::full(3, 3));
    let mut git = git_with(vec![]);
    assert!(matches!(
        frontier.auto_expand(&mut git, &mut grid),
        Err(ImergeError::FrontierBlocked { i1: 1, i2: 2, msg })
            if msg == "Manual merges requested; please merge 1-2"
    ));
}

#[test]
fn a_blockwise_frontier_knows_what_blocks_it() {
    let mut grid = edge_grid(3, 3);
    grid.get_mut(1, 1).record_blocked(true);
    let frontier = Frontier::Blockwise { top: Rect::full(3, 3), blocks: vec![] };
    assert_eq!(frontier.block(), Rect::full(3, 3));
    assert!(!frontier.is_complete(&grid).unwrap());
    assert!(matches!(
        frontier.incorporate_merge(&mut grid, 2, 1),
        Err(ImergeError::NotABlockingCommit(m)) if m == "Commit 2-1 was not blocking the frontier."
    ));
    assert!(matches!(
        frontier.incorporate_merge(&mut grid, 7, 1),
        Err(ImergeError::NotABlockingCommit(m)) if m == "Commit 7-1 was not on the frontier."
    ));
    frontier.incorporate_merge(&mut grid, 1, 1).unwrap();
    assert!(!grid.is_blocked(1, 1));
    let whole = Frontier::Blockwise { top: Rect::full(3, 3), blocks: vec![Rect::full(3, 3)] };
    assert!(whole.is_complete(&grid).unwrap());
    let mut git = git_with(vec![]);
    assert!(matches!(whole.auto_expand(&mut git, &mut grid), Err(ImergeError::BlockComplete)));
}

// -- storing and reading -------------------------------------------------------

#[test]
fn names_come_from_state_blobs() {
    let mut git = git_with(vec![ok(
        "b1 blob refs/imerge/one/state\nc1 commit refs/imerge/one/manual/0-0\nc2 commit refs/imerge/two/state\nb2 blob refs/imerge/x/y/state\nb3 blob refs/imerge//state\n",
    )]);
    assert_eq!(git.iter_existing_imerge_names().unwrap(), vec!["one", "x/y"]);
}

#[test]
fn the_refs_of_an_imerge_are_read() {
    let listing = "s blob refs/imerge/a.b/state\nc0 commit refs/imerge/a.b/manual/0-0\nc1 commit refs/imerge/a.b/auto/1-12\nc2 commit refs/imerge/a.b/manual/1-12\n";
    let mut git = git_with(vec![ok(listing), ok("{}\n"), Reply::State(state_dict("1.3.0"))]);
    let (state, merges) = git.read_imerge_state("a.b").unwrap();
    assert_eq!(state.goal, "merge");
    assert_eq!(
        merges,
        vec![
            ((0, 0), ("c0".to_string(), "manual".to_string())),
            ((1, 12), ("c2".to_string(), "manual".to_string())),
        ]
    );
}

#[test]
fn strange_refs_are_errors() {
    let read = |listing: &str| {
        let mut git =
            git_with(vec![ok(listing), ok("{}\n"), Reply::State(state_dict("1.3.0"))]);
        failure_text(git.read_imerge_state("a.b"))
    };
    assert_eq!(
        read("b blob refs/imerge/a.b/auto/1-1\n"),
        "Reference \"refs/imerge/a.b/auto/1-1\" is not a commit!"
    );
    assert_eq!(
        read("c commit refs/imerge/a.b/state\n"),
        "Reference \"refs/imerge/a.b/state\" is not a blob!"
    );
    assert_eq!(
        read("c commit refs/imerge/a.b/auto/1-99999999999999999999999\n"),
        "Reference \"refs/imerge/a.b/auto/1-99999999999999999999999\" is out of range!"
    );
    assert_eq!(
        read(""),
        "No state found; it should have been a blob reference at \"refs/imerge/a.b/state\""
    );
    assert_eq!(
        read("b blob refs/imerge/a.b/state\nc commit refs/imerge/a.b/auto/01-1\nc commit refs/imerge/aXb/auto/1-1\n"),
        "Unexpected reference(s) found in \"refs/imerge/a.b\" namespace:\n    refs/imerge/a.b/auto/01-1\n    refs/imerge/aXb/auto/1-1\n"
    );
}

#[test]
fn a_state_of_a_later_version_is_refused() {
    for (version, good) in [
        ("1.3.0", true),
        ("1.2", true),
        ("1.0.7", true),
        ("1.4.0", false),
        ("2.0.0", false),
        ("1", false),
        ("one.two", false),
    ] {
        let mut git = git_with(vec![ok("{}"), Reply::State(state_dict(version))]);
        let r = git.read_imerge_state_dict("m");
        if good {
            assert_eq!(r.unwrap().version, version);
        } else {
            assert_eq!(
                failure_text(r),
                format!("The format of imerge m ({version}) is not compatible with this script version.")
            );
        }
    }
    let mut git = git_with(vec![ok("{}"), Reply::Refused("bad".to_string())]);
    assert_eq!(
        failure_text(git.read_imerge_state_dict("m")),
        "could not parse imerge state: bad"
    );
}

fn entry(i1: usize, i2: usize, sha1: &str, source: &str) -> ((usize, usize), (String, String)) {
    ((i1, i2), (sha1.to_string(), source.to_string()))
}

#[test]
fn an_imerge_is_rebuilt_from_its_entries() {
    let mut state = state_dict("1.3.0");
    state.blockers = vec![(1, 2)];
    state.goalopts = Some(GoalOpts { base: Some("x".to_string()) });
    let merges = vec![
        entry(1, 1, "m", "auto"),
        entry(0, 0, "o", "manual"),
        entry(0, 2, "b2", "manual"),
        entry(1, 0, "a1", "manual"),
        entry(0, 1, "b1", "manual"),
    ];
    let s = MergeState::rebuild("m", state, &merges).unwrap();
    assert_eq!((s.grid.len1, s.grid.len2), (2, 3));
    assert_eq!(s.name(), "m");
    assert_eq!(s.grid.get(0, 2).sha1, Some("b2".to_string()));
    assert_eq!(s.grid.get(1, 1).flags, MergeRecord::SAVED_AUTO);
    assert_eq!(s.grid.get(1, 0).flags, MergeRecord::SAVED_MANUAL);
    assert!(s.grid.is_blocked(1, 2));
    assert!(!s.grid.is_known(1, 2));
    assert_eq!(s.find_index("m").unwrap(), (1, 1));
    assert!(matches!(s.find_index("?"), Err(ImergeError::CommitNotFound(c)) if c == "?"));
    assert_eq!(s.branch, "b");
}

#[test]
fn entries_that_do_not_fit_are_errors() {
    let rebuild = |merges: Vec<((usize, usize), (String, String))>| {
        failure_text(MergeState::rebuild("m", state_dict("1.3.0"), &merges))
    };
    let base = || vec![entry(0, 0, "o", "manual"), entry(1, 0, "a", "manual"), entry(0, 1, "b", "manual")];
    let plus = |e| {
        let mut v = base();
        v.push(e);
        v
    };
    assert_eq!(rebuild(vec![]), "Merge base is missing!");
    assert_eq!(rebuild(vec![entry(0, 0, "o", "auto")]), "Merge base should be manual!");
    assert_eq!(
        rebuild(vec![entry(0, 0, "o", "manual"), entry(1, 0, "a", "auto")]),
        "Merge 1-0 should be manual!"
    );
    assert_eq!(
        rebuild(vec![entry(0, 0, "o", "manual"), entry(0, 1, "a", "auto")]),
        "Merge 0-1 should be manual!"
    );
    assert_eq!(rebuild(vec![entry(0, 0, "o", "other")]), "unknown merge source \"other\"");
    assert_eq!(rebuild(plus(entry(0, 3, "x", "manual"))), "Merge 0-2 is missing!");
    assert_eq!(rebuild(plus(entry(3, 0, "x", "manual"))), "Merge 2-0 is missing!");
    assert_eq!(
        rebuild(plus(entry(5, 1, "x", "auto"))),
        "Merge 5-1 is out of range [0:2,0:2]"
    );
    let mut state = state_dict("1.3.0");
    state.goal = "?".to_string();
    assert_eq!(
        failure_text(MergeState::rebuild("m", state, &base())),
        "Goal \"?\", read from state, is not recognized."
    );
    let mut state = state_dict("1.3.0");
    state.tip1 = None;
    assert_eq!(
        failure_text(MergeState::rebuild("m", state, &vec![entry(0, 0, "o", "manual")])),
        "could not determine tip1"
    );
    let mut state = state_dict("1.3.0");
    state.blockers = vec![(9, 9)];
    assert_eq!(
        failure_text(MergeState::rebuild("m", state, &base())),
        "Blocker 9-9 is out of range!"
    );
}

#[test]
fn a_record_is_saved_once() {
    let mut record = MergeRecord::new();
    record.record_merge("m", MergeRecord::SAVED_AUTO);
    record.record_merge("n", MergeRecord::NEW_MANUAL);
    let mut git = git_with(vec![ok(""), ok("")]);
    record.save(&mut git, "x", 3, 4).unwrap();
    assert_eq!(
        commands(&git),
        vec![
            "update-ref -m imerge 'x': Remove obsolete auto merge -d refs/imerge/x/auto/3-4",
            "update-ref -m imerge 'x': Record manual merge refs/imerge/x/manual/3-4 n",
        ]
    );
    assert_eq!(record.flags, MergeRecord::SAVED_MANUAL);
    record.save(&mut git, "x", 3, 4).unwrap();
    assert_eq!(git.asked.len(), 2);
}

#[test]
fn refs_are_deleted_together() {
    let mut git = git_with(vec![ok("refs/imerge/m/state\nrefs/imerge/m/auto/1-1\n"), ok("")]);
    git.delete_imerge_refs("m").unwrap();
    assert!(matches!(
        &git.asked[1],
        Request::Git { stdin: Some(s), .. }
            if s == "delete refs/imerge/m/state\ndelete refs/imerge/m/auto/1-1\n"
    ));
    let mut git = git_with(vec![ok("refs/imerge/m/state\n"), fails("locked")]);
    git.delete_imerge_refs("m").unwrap();
    assert_eq!(
        stderr(&git),
        "Warning: error removing references:\n'git update-ref -m imerge: remove merge 'm' --stdin' failed: locked\n"
    );
}

// -- merges by the user ----------------------------------------------------------

fn small_state() -> MergeState {
    let merges = vec![
        entry(0, 0, "o", "manual"),
        entry(1, 0, "a1", "manual"),
        entry(0, 1, "b1", "manual"),
    ];
    let mut state = state_dict("1.3.0");
    state.blockers = vec![(1, 1)];
    MergeState::rebuild("m", state, &merges).unwrap()
}

#[test]
fn a_manual_merge_joins_neighbours() {
    let mut s = small_state();
    let mut git = git_with(vec![ok("a1 b1\n")]);
    assert_eq!(s.incorporate_manual_merge(&mut git, "c").unwrap(), (1, 1));
    assert_eq!(s.grid.get(1, 1).sha1, Some("c".to_string()));
    assert!(s.grid.get(1, 1).is_manual());

    // With its parents the other way round it is made anew.
    let mut s = small_state();
    let mut git = git_with(vec![ok("b1 a1\n"), ok("tree t\nparent b1\nparent a1\n\nm\n"), ok("d\n")]);
    assert_eq!(s.incorporate_manual_merge(&mut git, "c").unwrap(), (1, 1));
    assert_eq!(s.grid.get(1, 1).sha1, Some("d".to_string()));
}

#[test]
fn other_merges_are_not_usable() {
    for (parents, why) in [
        ("a1", "it is not a merge"),
        ("a1 b1 o", "it is an octopus merge"),
        ("a1 x", "its parents are not known merge commits"),
        ("a1 o", "it is not a pairwise merge of adjacent parents"),
    ] {
        let mut s = small_state();
        let mut git = git_with(vec![ok(parents)]);
        match s.incorporate_manual_merge(&mut git, "c") {
            Err(ImergeError::ManualMergeUnusable { commit, msg }) => {
                assert_eq!(commit, "c");
                assert_eq!(msg, why);
            }
            other => panic!("{other:?}"),
        }
    }
}

#[test]
fn without_a_manual_merge_there_is_nothing_to_take_in() {
    let refname = scratch_refname("m");
    assert_eq!(refname, "refs/heads/imerge/m");
    let mut git = git_with(vec![fails("")]);
    assert!(matches!(
        small_state().incorporate_user_merge(&mut git, None),
        Err(ImergeError::NoManualMerge(m))
            if m == "Reference refs/heads/imerge/m does not exist."
    ));
    let mut git = git_with(vec![ok("c"), fails("")]);
    assert!(matches!(
        small_state().incorporate_user_merge(&mut git, None),
        Err(ImergeError::NoManualMerge(m)) if m == "HEAD is currently detached."
    ));
    // A scratch ref that holds nothing new is deleted.
    let mut git = git_with(vec![ok("a1"), ok("refs/heads/main"), ok("")]);
    assert!(matches!(
        small_state().incorporate_user_merge(&mut git, None),
        Err(ImergeError::NoManualMerge(m))
            if m == "Reference refs/heads/imerge/m was not checked out."
    ));
    assert_eq!(
        stderr(&git),
        "refs/heads/imerge/m did not point to a new merge; it has been deleted.\n"
    );
    let mut git = git_with(vec![ok("new"), ok("refs/heads/main")]);
    let text = failure_text(small_state().incorporate_user_merge(&mut git, None));
    assert!(text.starts_with("The scratch reference, refs/heads/imerge/m, already exists but is not\nchecked out."));
    assert!(text.ends_with("\n\n    git update-ref -d refs/heads/imerge/m\n\nand then continue."));
}

#[test]
fn parents_have_to_be_ready() {
    let merges = vec![
        entry(0, 0, "o", "manual"),
        entry(1, 0, "a1", "manual"),
        entry(2, 0, "a2", "manual"),
        entry(0, 1, "b1", "manual"),
    ];
    let s = MergeState::rebuild("m", state_dict("1.3.0"), &merges).unwrap();
    let mut git = git_with(vec![]);
    assert_eq!(
        failure_text(s.request_user_merge(&mut git, 2, 1)),
        "The parents of merge 2-1 are not ready"
    );
    let mut git = git_with(vec![ok(""), ok(""), fails(""), ok(""), ok("")]);
    s.request_user_merge(&mut git, 1, 1).unwrap();
    assert_eq!(
        commands(&git),
        vec![
            "update-ref -m imerge 'm': Prepare merge 1-1 refs/heads/imerge/m a1",
            "checkout imerge/m",
            "merge --no-commit -m imerge 'm': manual merge 1-1 b1",
            "--no-pager log --no-walk a1",
            "--no-pager log --no-walk b1",
        ]
    );
}

#[test]
fn a_goal_is_set_if_it_is_allowed() {
    let mut s = small_state();
    let mut git = git_with(vec![ok("p\n")]);
    s.set_goal(&mut git, "rebase").unwrap();
    assert_eq!(s.goal, "rebase");
    assert_eq!(failure_text(s.set_goal(&mut git, "x")), "\"x\" is not an allowed goal");
    let mut git = git_with(vec![]);
    s.goal = "?".to_string();
    assert_eq!(
        failure_text(s.simplify(&mut git, "refs/heads/r", false)),
        "Invalid value for goal (\"?\")"
    );
    for (goal, shown) in [
        ("merge", "merge"),
        ("full", "\"full\""),
        ("border", "border"),
        ("rebase-with-history", "rebase-with-history"),
        ("rebase", "rebase"),
        ("revert", "revert"),
    ] {
        s.goal = goal.to_string();
        assert_eq!(
            failure_text(s.simplify(&mut git, "refs/heads/r", false)),
            format!("Cannot simplify to {shown} because merge 1-1 is not yet done")
        );
    }
    s.goal = "drop".to_string();
    assert_eq!(
        failure_text(s.simplify(&mut git, "refs/heads/r", false)),
        "Goal \"drop\" was not initialized correctly"
    );
    assert!(git.asked.is_empty());
}

#[test]
fn a_result_does_not_lose_commits() {
    let mut s = small_state();
    s.grid.get_mut(1, 1).record_merge("m", MergeRecord::NEW_AUTO);
    s.goal = "full".to_string();
    let mut git = git_with(vec![ok("old"), ok("refs/heads/main"), ok("0\n")]);
    assert_eq!(
        failure_text(s.simplify(&mut git, "refs/heads/r", false)),
        "refs/heads/r cannot be fast-forwarded to m!"
    );
    let mut git = git_with(vec![ok("old"), ok("refs/heads/r"), ok("")]);
    s.simplify(&mut git, "refs/heads/r", true).unwrap();
    assert_eq!(commands(&git)[2], "reset --hard m");
    s.goal = "rebase".to_string();
    let mut git = git_with(vec![ok("old"), ok("0\n")]);
    assert_eq!(
        failure_text(s.simplify(&mut git, "refs/heads/r", false)),
        "refs/heads/r cannot be updated to m without discarding history.\nUse --force if you are sure, or choose a different reference"
    );
}

#[test]
fn saving_does_not_move_the_frontier() {
    let mut grid = edge_grid(3, 3);
    grid.get_mut(1, 1).record_merge("m11", MergeRecord::NEW_AUTO);
    let full = Rect::full(3, 3);
    let before = git_imerge::known::map_known_frontier(&grid, full).unwrap();
    let mut git = git_with((0..6).map(|_| ok("")).collect());
    for (i1, i2) in [(0, 0), (1, 0), (2, 0), (0, 1), (0, 2), (1, 1)] {
        grid.get_mut(i1, i2).save(&mut git, "t", i1, i2).unwrap();
    }
    assert_eq!(git_imerge::known::map_known_frontier(&grid, full).unwrap(), before);
    assert_eq!(before.1, vec![full.sub(0, 1, 0, 3), full.sub(0, 2, 0, 2)]);
    // All that was written lives below the name.
    assert!(commands(&git).iter().all(|c| c.contains(" refs/imerge/t/")));
}

#[test]
fn regions_are_tried_in_the_order_of_their_origins() {
    let mut grid = edge_grid(3, 3);
    grid.dedupe_patches = false;
    grid.get_mut(1, 1).record_merge("m11", MergeRecord::NEW_AUTO);
    let full = Rect::full(3, 3);
    let (top, blocks) = git_imerge::known::map_known_frontier(&grid, full).unwrap();
    let frontier = Frontier::Blockwise { top, blocks };
    let mut replies = vec![];
    for _ in 0..4 {
        replies.extend(vec![ok(""), fails(""), ok("")]);
    }
    let mut git = git_with(replies);
    assert!(matches!(
        frontier.auto_expand(&mut git, &mut grid),
        Err(ImergeError::FrontierBlocked { i1: 1, i2: 2, .. })
    ));
    let probe = |cell: &str| format!("Attempting automerge of {cell}...failure.\n");
    assert_eq!(
        stderr(&git),
        [probe("1-2"), probe("1-2"), probe("2-1"), probe("2-1")].concat()
    );
}
