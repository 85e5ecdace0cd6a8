use starship_svn::branch::{branch, branch_of_path, branch_of_segments, is_blacklisted};
use starship_svn::error::AppErr;
use starship_svn::info::WorkingCopyInfo;

fn names(list: &[&str]) -> Vec<String> {
    list.iter().map(|s| s.to_string()).collect()
}

fn at(url: &str) -> WorkingCopyInfo {
    WorkingCopyInfo { url: url.to_string(), relative_url: "^/".to_string() }
}

#[test]
fn trunk_is_the_branch() {
    assert_eq!(branch_of_path("/repo/trunk/src", &[]), Ok("trunk".to_string()));
}

#[test]
fn folder_behind_branches_is_the_branch() {
    assert_eq!(branch_of_path("/repo/branches/feature-x/src", &[]), Ok("feature-x".to_string()));
}

#[test]
fn blacklisted_folder_behind_branches_is_skipped() {
    let blacklist = names(&["dev"]);
    assert_eq!(
        branch_of_path("/repo/branches/dev/feature-x", &blacklist),
        Ok("feature-x".to_string())
    );
}

#[test]
fn blacklisted_folder_behind_tags_is_skipped() {
    let blacklist = names(&["v1"]);
    assert_eq!(branch_of_path("/repo/tags/v1/v1.2", &blacklist), Ok("v1.2".to_string()));
}

#[test]
fn path_without_layout_folder_is_unexpected() {
    assert_eq!(branch_of_path("/repo/main", &[]), Err(AppErr::UnexpectedRepoLayout));
}

#[test]
fn empty_path_is_unexpected() {
    assert_eq!(branch_of_path("", &[]), Err(AppErr::UnexpectedRepoLayout));
    assert_eq!(branch_of_path("/", &[]), Err(AppErr::UnexpectedRepoLayout));
    assert_eq!(branch_of_segments(&[], &[]), Err(AppErr::UnexpectedRepoLayout));
}

#[test]
fn branches_as_last_folder_finds_no_name() {
    assert_eq!(branch_of_path("/repo/branches", &[]), Err(AppErr::BranchNameNotFound));
    assert_eq!(branch_of_path("/repo/tags/", &[]), Err(AppErr::BranchNameNotFound));
}

#[test]
fn all_folders_blacklisted_finds_no_name() {
    let blacklist = names(&["dev", "team"]);
    assert_eq!(
        branch_of_path("/repo/branches/dev/team/dev", &blacklist),
        Err(AppErr::BranchNameNotFound)
    );
}

#[test]
fn several_blacklisted_folders_are_skipped() {
    let blacklist = names(&["dev", "team"]);
    assert_eq!(
        branch_of_path("/repo/branches/team/dev/team/fix/more", &blacklist),
        Ok("fix".to_string())
    );
}

#[test]
fn layout_folders_match_in_any_case_and_keep_their_case() {
    assert_eq!(branch_of_path("/repo/TRUNK/src", &[]), Ok("TRUNK".to_string()));
    assert_eq!(branch_of_path("/repo/Trunk", &[]), Ok("Trunk".to_string()));
    assert_eq!(branch_of_path("/repo/Branches/Fix", &[]), Ok("Fix".to_string()));
    assert_eq!(branch_of_path("/repo/TAGS/V1", &[]), Ok("V1".to_string()));
}

#[test]
fn near_misses_are_no_layout_folders() {
    assert_eq!(branch_of_path("/repo/trunks/x", &[]), Err(AppErr::UnexpectedRepoLayout));
    assert_eq!(branch_of_path("/repo/trun/x", &[]), Err(AppErr::UnexpectedRepoLayout));
    assert_eq!(branch_of_path("/repo/branch/x", &[]), Err(AppErr::UnexpectedRepoLayout));
    assert_eq!(branch_of_path("/repo/tag/x", &[]), Err(AppErr::UnexpectedRepoLayout));
    assert_eq!(branch_of_path("/repo/tRUNK/x", &[]), Ok("tRUNK".to_string()));
    // a character that only differs from a letter by the case bit of ASCII
    assert_eq!(branch_of_path("/repo/\u{14}runk/x", &[]), Err(AppErr::UnexpectedRepoLayout));
    assert_eq!(branch_of_path("/repo/[runk/x", &[]), Err(AppErr::UnexpectedRepoLayout));
}

#[test]
fn blacklist_is_matched_letter_for_letter() {
    let blacklist = names(&["Dev"]);
    assert_eq!(branch_of_path("/repo/branches/dev/x", &blacklist), Ok("dev".to_string()));
    assert_eq!(branch_of_path("/repo/branches/Dev/x", &blacklist), Ok("x".to_string()));
}

#[test]
fn first_layout_folder_decides() {
    assert_eq!(branch_of_path("/trunk/branches/b", &[]), Ok("trunk".to_string()));
    assert_eq!(branch_of_path("/branches/trunk/b", &[]), Ok("trunk".to_string()));
    assert_eq!(branch_of_path("/tags/branches/b", &[]), Ok("branches".to_string()));
}

#[test]
fn trunk_behind_exhausted_branches_is_not_looked_for() {
    let blacklist = names(&["dev", "trunk"]);
    assert_eq!(
        branch_of_path("/repo/branches/dev/trunk", &blacklist),
        Err(AppErr::BranchNameNotFound)
    );
}

#[test]
fn blacklist_does_not_touch_trunk() {
    let blacklist = names(&["trunk"]);
    assert_eq!(branch_of_path("/repo/trunk/src", &blacklist), Ok("trunk".to_string()));
}

#[test]
fn segments_are_judged_as_given() {
    let segs = names(&["/", "repo", "branches", "a b", "c"]);
    assert_eq!(branch_of_segments(&segs, &[]), Ok("a b".to_string()));
    let blacklist = names(&["a b"]);
    assert_eq!(branch_of_segments(&segs, &blacklist), Ok("c".to_string()));
}

#[test]
fn blacklist_membership() {
    let blacklist = names(&["dev", "team"]);
    assert!(is_blacklisted(&"dev".to_string(), &blacklist));
    assert!(is_blacklisted(&"team".to_string(), &blacklist));
    assert!(!is_blacklisted(&"de".to_string(), &blacklist));
    assert!(!is_blacklisted(&"DEV".to_string(), &blacklist));
    assert!(!is_blacklisted(&"dev".to_string(), &[]));
}

#[test]
fn branch_reads_the_path_of_the_url() {
    assert_eq!(branch(&at("https://svn.example.com/repo/trunk/src"), &[]), Ok("trunk".to_string()));
    assert_eq!(
        branch(&at("svn://svn.example.com/repo/branches/feature-x/src"), &[]),
        Ok("feature-x".to_string())
    );
    let blacklist = names(&["dev"]);
    assert_eq!(
        branch(&at("https://svn.example.com/repo/branches/dev/feature-x"), &blacklist),
        Ok("feature-x".to_string())
    );
    let blacklist = names(&["v1"]);
    assert_eq!(
        branch(&at("https://svn.example.com/repo/tags/v1/v1.2"), &blacklist),
        Ok("v1.2".to_string())
    );
    assert_eq!(
        branch(&at("https://svn.example.com/repo/main"), &[]),
        Err(AppErr::UnexpectedRepoLayout)
    );
}

#[test]
fn branch_ignores_what_is_not_path() {
    // host, query and fragment hold layout folder names; only the path counts
    assert_eq!(branch(&at("https://trunk/repo/branches/b1"), &[]), Ok("b1".to_string()));
    assert_eq!(
        branch(&at("https://host/repo/main?x=/trunk/#/branches/b"), &[]),
        Err(AppErr::UnexpectedRepoLayout)
    );
    assert_eq!(branch(&at("https://host"), &[]), Err(AppErr::UnexpectedRepoLayout));
}

#[test]
fn branch_returns_the_folder_as_the_url_encodes_it() {
    assert_eq!(
        branch(&at("https://host/repo/branches/my branch/src"), &[]),
        Ok("my%20branch".to_string())
    );
}

#[test]
fn branch_rejects_what_is_no_url() {
    assert_eq!(
        branch(&at("/repo/trunk/src"), &[]),
        Err(AppErr::Url(url::ParseError::RelativeUrlWithoutBase))
    );
    assert_eq!(branch(&at("https://"), &[]), Err(AppErr::Url(url::ParseError::EmptyHost)));
    assert!(matches!(branch(&at(""), &[]), Err(AppErr::Url(_))));
}
