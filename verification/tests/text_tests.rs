use h5stream::text::contains_fragment;
use h5stream::text::equals_with_suffix;
use h5stream::text::str_eq_bytes;

#[test]
fn fragment_matching() {
    assert!(contains_fragment("/sensor.timestamp", ".timestamp"));
    assert!(contains_fragment("scan_time_axis", "time"));
    assert!(!contains_fragment("scan_TIME_axis", "time"));
    assert!(contains_fragment("abc", ""));
    assert!(!contains_fragment("ab", "abc"));
    assert!(contains_fragment("aaab", "aab"));
}

#[test]
fn suffix_matching() {
    assert!(equals_with_suffix("/temp.timestamp", "/temp", ".timestamp"));
    assert!(!equals_with_suffix("/temp.timestamps", "/temp", ".timestamp"));
    assert!(!equals_with_suffix("/temp", "/temp", ".timestamp"));
    assert!(equals_with_suffix("/temp", "/temp", ""));
}

#[test]
fn byte_equality() {
    assert!(str_eq_bytes("DIMENSION_LIST", "DIMENSION_LIST"));
    assert!(!str_eq_bytes("DIMENSION_LIST", "dimension_list"));
    assert!(!str_eq_bytes("a", "ab"));
}
