use pacmeta::vercmp::AbCmp;
use pacmeta::vercmp::vercmp;

/// Same tests as in `test/util/vercmptest.sh` in pacman source tree.
#[test]
fn pacman_vercmp_tests() {
    // all similar length, no pkgrel
    assert_eq!(vercmp("1.5.0", "1.5.0"), AbCmp::Same);
    assert_eq!(vercmp("1.5.1", "1.5.0"), AbCmp::ANewer);

    // mixed length
    assert_eq!(vercmp("1.5.1", "1.5"), AbCmp::ANewer);

    // with pkgrel, simple
    assert_eq!(vercmp("1.5.0-1", "1.5.0-1"), AbCmp::Same);
    assert_eq!(vercmp("1.5.0-1", "1.5.0-2"), AbCmp::BNewer);
    assert_eq!(vercmp("1.5.0-1", "1.5.1-1"), AbCmp::BNewer);
    assert_eq!(vercmp("1.5.0-2", "1.5.1-1"), AbCmp::BNewer);

    // with pkgrel, mixed lengths
    assert_eq!(vercmp("1.5-1", "1.5.1-1"), AbCmp::BNewer);
    assert_eq!(vercmp("1.5-2", "1.5.1-1"), AbCmp::BNewer);
    assert_eq!(vercmp("1.5-2", "1.5.1-2"), AbCmp::BNewer);

    // mixed pkgrel inclusion
    assert_eq!(vercmp("1.5", "1.5-1"), AbCmp::Same);
    assert_eq!(vercmp("1.5-1", "1.5"), AbCmp::Same);
    assert_eq!(vercmp("1.1-1", "1.1"), AbCmp::Same);
    assert_eq!(vercmp("1.0-1", "1.1"), AbCmp::BNewer);
    assert_eq!(vercmp("1.1-1", "1.0"), AbCmp::ANewer);

    // alphanumeric versions
    assert_eq!(vercmp("1.5b-1", "1.5-1"), AbCmp::BNewer);
    assert_eq!(vercmp("1.5b", "1.5"), AbCmp::BNewer);
    assert_eq!(vercmp("1.5b-1", "1.5"), AbCmp::BNewer);
    assert_eq!(vercmp("1.5b", "1.5.1"), AbCmp::BNewer);

    // from the manpage
    assert_eq!(vercmp("1.0a", "1.0alpha"), AbCmp::BNewer);
    assert_eq!(vercmp("1.0alpha", "1.0b"), AbCmp::BNewer);
    assert_eq!(vercmp("1.0b", "1.0beta"), AbCmp::BNewer);
    assert_eq!(vercmp("1.0beta", "1.0rc"), AbCmp::BNewer);
    assert_eq!(vercmp("1.0rc", "1.0"), AbCmp::BNewer);

    // going crazy? alpha-dotted versions
    assert_eq!(vercmp("1.5.a", "1.5"), AbCmp::ANewer);
    assert_eq!(vercmp("1.5.b", "1.5.a"), AbCmp::ANewer);
    assert_eq!(vercmp("1.5.1", "1.5.b"), AbCmp::ANewer);

    // alpha dots and dashes
    assert_eq!(vercmp("1.5.b-1", "1.5.b"), AbCmp::Same);
    assert_eq!(vercmp("1.5-1", "1.5.b"), AbCmp::BNewer);

    // same/similar content, differing separators
    assert_eq!(vercmp("2.0", "2_0"), AbCmp::Same);
    assert_eq!(vercmp("2.0_a", "2_0.a"), AbCmp::Same);
    assert_eq!(vercmp("2.0a", "2.0.a"), AbCmp::BNewer);
    assert_eq!(vercmp("2___a", "2_a"), AbCmp::ANewer);

    // epoch included version comparisons
    assert_eq!(vercmp("0:1.0", "0:1.0"), AbCmp::Same);
    assert_eq!(vercmp("0:1.0", "0:1.1"), AbCmp::BNewer);
    assert_eq!(vercmp("1:1.0", "0:1.0"), AbCmp::ANewer);
    assert_eq!(vercmp("1:1.0", "0:1.1"), AbCmp::ANewer);
    assert_eq!(vercmp("1:1.0", "2:1.1"), AbCmp::BNewer);

    // epoch + sometimes present pkgrel
    assert_eq!(vercmp("1:1.0", "0:1.0-1"), AbCmp::ANewer);
    assert_eq!(vercmp("1:1.0-1", "0:1.1-1"), AbCmp::ANewer);

    // epoch included on one version
    assert_eq!(vercmp("0:1.0", "1.0"), AbCmp::Same);
    assert_eq!(vercmp("0:1.0", "1.1"), AbCmp::BNewer);
    assert_eq!(vercmp("0:1.1", "1.0"), AbCmp::ANewer);
    assert_eq!(vercmp("1:1.0", "1.0"), AbCmp::ANewer);
    assert_eq!(vercmp("1:1.0", "1.1"), AbCmp::ANewer);
    assert_eq!(vercmp("1:1.1", "1.1"), AbCmp::ANewer);
}

#[test]
fn test_rpm_vercmp_odd() {
    assert_eq!(vercmp("", ""), AbCmp::Same);
    assert_eq!(vercmp(" ", ""), AbCmp::ANewer);
    assert_eq!(vercmp("", " "), AbCmp::BNewer);
}

#[test]
fn test_vercmp_reflexive_samples() {
    assert_eq!(vercmp("3.2.1-4", "3.2.1-4"), AbCmp::Same);
    assert_eq!(vercmp("2:0.9rc-2", "2:0.9rc-2"), AbCmp::Same);
}

#[test]
fn test_vercmp_epoch_dominates() {
    assert_eq!(vercmp("1:1.0", "0:999.0"), AbCmp::ANewer);
}

#[test]
fn test_vercmp_release_defaults() {
    assert_eq!(vercmp("1.5", "1.5-1"), AbCmp::Same);
    assert_eq!(vercmp("7", "7-1"), AbCmp::Same);
}

#[test]
fn test_vercmp_numeric_runs() {
    assert_eq!(vercmp("1.5.1", "1.5.2"), AbCmp::BNewer);
    assert_eq!(vercmp("1.10", "1.9"), AbCmp::ANewer);
    assert_eq!(vercmp("1.005", "1.4"), AbCmp::ANewer);
}

#[test]
fn test_vercmp_flip_samples() {
    assert_eq!(vercmp("1.5.0", "1.5.1"), AbCmp::BNewer);
    assert_eq!(vercmp("1.0alpha", "1.0a"), AbCmp::ANewer);
    assert_eq!(vercmp("0:999.0", "1:1.0"), AbCmp::BNewer);
}

#[test]
fn test_vercmp_trailing_separator_terminates() {
    assert_eq!(vercmp("1.", "1.2"), AbCmp::BNewer);
    assert_eq!(vercmp("1..", "1."), AbCmp::Same);
}
