use taskman::processes::{group_processes, sort_processes, ProcessGroup, ProcessSample, SortBy};

fn sample(path: Option<&str>, name: &str, pid: u32, ppid: u32, memory: u64, cpu: u32) -> ProcessSample {
    ProcessSample {
        exe_path: path.map(|p| p.as_bytes().to_vec()),
        name: name.to_string(),
        pid,
        ppid,
        memory,
        cpu,
    }
}

fn row(path: &str, name: &str, pid: u32, ppid: u32, memory: u64, cpu: u32) -> ProcessGroup {
    ProcessGroup { exe_path: path.as_bytes().to_vec(), memory, cpu, name: name.to_string(), ppid, pid }
}

fn summary(rows: &[ProcessGroup]) -> Vec<(String, u32, u32, u64, u32)> {
    rows.iter().map(|g| (g.name.clone(), g.pid, g.ppid, g.memory, g.cpu)).collect()
}

#[test]
fn grouping_merges_processes_of_one_executable() {
    let samples = vec![
        sample(Some("/usr/bin/firefox"), "firefox", 40, 1, 300, 5),
        sample(Some("/usr/bin/bash"), "bash", 7, 1, 10, 0),
        sample(Some("/usr/bin/firefox"), "Web Content", 12, 40, 500, 2),
        sample(None, "kworker", 3, 2, 0, 0),
        sample(Some("/usr/bin/firefox"), "Web Content", 90, 40, 100, 9),
    ];
    let groups = group_processes(&samples);
    assert_eq!(groups.len(), 2);
    assert_eq!(groups[0].exe_path, b"/usr/bin/firefox".to_vec());
    assert_eq!(groups[0].name, "firefox");
    assert_eq!(groups[0].ppid, 1);
    assert_eq!(groups[0].pid, 12);
    assert_eq!(groups[0].memory, 500);
    assert_eq!(groups[0].cpu, 9);
    assert_eq!(groups[1].exe_path, b"/usr/bin/bash".to_vec());
    assert_eq!((groups[1].pid, groups[1].memory, groups[1].cpu), (7, 10, 0));
}

#[test]
fn grouping_skips_processes_without_an_executable() {
    let samples = vec![sample(None, "kthreadd", 2, 0, 0, 0), sample(None, "kworker", 3, 2, 0, 0)];
    assert!(group_processes(&samples).is_empty());
    assert!(group_processes(&Vec::new()).is_empty());
}

#[test]
fn sorting_by_memory_descending_puts_the_largest_first() {
    let mut rows = vec![row("/a", "a", 1, 0, 30, 0), row("/b", "b", 2, 0, 90, 0), row("/c", "c", 3, 0, 60, 0)];
    sort_processes(&mut rows, SortBy::RAM, false);
    assert_eq!(rows.iter().map(|g| g.memory).collect::<Vec<_>>(), vec![90, 60, 30]);
}

#[test]
fn sorting_by_each_column_ascending() {
    let base = vec![
        row("/x", "zsh", 30, 3, 5, 7),
        row("/y", "Xorg", 10, 1, 9, 1),
        row("/z", "bash", 20, 2, 1, 4),
    ];
    let mut by_name = base.iter().map(|g| row(std::str::from_utf8(&g.exe_path).unwrap(), &g.name, g.pid, g.ppid, g.memory, g.cpu)).collect::<Vec<_>>();
    sort_processes(&mut by_name, SortBy::Name, true);
    assert_eq!(by_name.iter().map(|g| g.name.as_str()).collect::<Vec<_>>(), vec!["Xorg", "bash", "zsh"]);

    let mut rows = by_name;
    sort_processes(&mut rows, SortBy::PID, true);
    assert_eq!(rows.iter().map(|g| g.pid).collect::<Vec<_>>(), vec![10, 20, 30]);
    sort_processes(&mut rows, SortBy::PPID, false);
    assert_eq!(rows.iter().map(|g| g.ppid).collect::<Vec<_>>(), vec![3, 2, 1]);
    sort_processes(&mut rows, SortBy::CPU, true);
    assert_eq!(rows.iter().map(|g| g.cpu).collect::<Vec<_>>(), vec![1, 4, 7]);
    sort_processes(&mut rows, SortBy::RAM, true);
    assert_eq!(rows.iter().map(|g| g.memory).collect::<Vec<_>>(), vec![1, 5, 9]);
}

#[test]
fn sorting_names_compares_bytes_and_prefixes_first() {
    let mut rows = vec![row("/1", "abc", 1, 0, 0, 0), row("/2", "ab", 2, 0, 0, 0), row("/3", "é", 3, 0, 0, 0), row("/4", "b", 4, 0, 0, 0)];
    sort_processes(&mut rows, SortBy::Name, true);
    assert_eq!(rows.iter().map(|g| g.name.as_str()).collect::<Vec<_>>(), vec!["ab", "abc", "b", "é"]);
    sort_processes(&mut rows, SortBy::Name, false);
    assert_eq!(rows.iter().map(|g| g.name.as_str()).collect::<Vec<_>>(), vec!["é", "b", "abc", "ab"]);
}

#[test]
fn sorting_keeps_every_row() {
    let mut rows = vec![row("/a", "a", 5, 0, 1, 1), row("/b", "b", 5, 0, 1, 1), row("/c", "c", 1, 0, 1, 1)];
    sort_processes(&mut rows, SortBy::PID, true);
    let mut names = summary(&rows).into_iter().map(|t| t.0).collect::<Vec<_>>();
    names.sort();
    assert_eq!(names, vec!["a", "b", "c"]);
    assert_eq!(rows[0].pid, 1);
}

#[test]
fn sorting_nothing_is_nothing() {
    let mut rows: Vec<ProcessGroup> = Vec::new();
    sort_processes(&mut rows, SortBy::CPU, false);
    assert!(rows.is_empty());
}

#[test]
fn sorting_keeps_tied_rows_in_their_order() {
    let mut rows = vec![
        row("/a", "a", 5, 0, 7, 0),
        row("/b", "b", 1, 0, 3, 0),
        row("/c", "c", 9, 0, 7, 0),
        row("/d", "d", 2, 0, 3, 0),
    ];
    sort_processes(&mut rows, SortBy::RAM, false);
    assert_eq!(rows.iter().map(|g| g.name.as_str()).collect::<Vec<_>>(), vec!["a", "c", "b", "d"]);
    sort_processes(&mut rows, SortBy::RAM, true);
    assert_eq!(rows.iter().map(|g| g.name.as_str()).collect::<Vec<_>>(), vec!["b", "d", "a", "c"]);
}
