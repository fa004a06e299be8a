use vex::error::GitError;

#[test]
fn error_messages() {
    assert_eq!(GitError::InvalidObjectHeader.message(), "invalid object header");
    assert_eq!(GitError::MalformedObject { expected: 12, actual: 3 }.message(), "malformed object: expected 12 bytes, got 3");
    assert_eq!(GitError::UnknownObjectType("blub".to_string()).message(), "unknown object type: blub");
    assert_eq!(GitError::UnknownRevision("dev".to_string()).message(), "unknown revision: dev");
    assert_eq!(GitError::NotACommit("abc".to_string()).message(), "abc is not a commit");
    assert_eq!(GitError::InvalidHex("zz".to_string()).message(), "invalid object id: zz");
    assert_eq!(GitError::EmptyIndex.message(), "nothing to commit (index is empty)");
    assert_eq!(GitError::NotARepository.message(), "not inside a git repository");
    assert_eq!(GitError::NotTreeish.message(), "not a tree-ish object");
    assert_eq!(GitError::ExpectedTree.message(), "expected tree object");
    assert_eq!(GitError::NotABlob.message(), "tree entry is not a blob");
    assert_eq!(GitError::CommitMissingTree.message(), "commit missing tree");
    assert_eq!(GitError::InvalidCommit.message(), "invalid commit object");
    assert_eq!(GitError::InvalidTree.message(), "invalid tree object");
    assert_eq!(GitError::OutsideWorktree.message(), "file is outside worktree");
    assert_eq!(GitError::InvalidObjectSize("invalid digit found in string".to_string()).message(), "invalid digit found in string");
}
