use si::directory::{get_stats, EntryKind, Stats};

#[test]
fn zeros() {
    assert_eq!(
        Stats {
            entries: 0,
            directories: 0,
            files: 0
        }
        .to_string(),
        "0 entries, 0 directories, 0 files"
    );
}

#[test]
fn ones() {
    assert_eq!(
        Stats {
            entries: 1,
            directories: 1,
            files: 1
        }
        .to_string(),
        "1 entry, 1 directory, 1 file"
    );
}

#[test]
fn twos() {
    assert_eq!(
        Stats {
            entries: 2,
            directories: 2,
            files: 2
        }
        .to_string(),
        "2 entries, 2 directories, 2 files"
    );
}

#[test]
fn shows_the_number_of_files_and_directories() {
    let stats = get_stats(&vec![EntryKind::File, EntryKind::Directory]);
    assert_eq!(
        format!("{}\n", stats.to_string()),
        "2 entries, 1 directory, 1 file\n"
    );
}

#[test]
fn other_kinds_count_as_entries_only() {
    let stats = get_stats(&vec![EntryKind::Other, EntryKind::File, EntryKind::Other]);
    assert_eq!(stats.to_string(), "3 entries, 0 directories, 1 file");
}

#[test]
fn large_counts_are_written_in_decimal() {
    let stats = Stats {
        entries: 1234,
        directories: 10,
        files: 1224,
    };
    assert_eq!(stats.to_string(), "1234 entries, 10 directories, 1224 files");
}
