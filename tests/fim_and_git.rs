use refact_lsp::git::{file_changes_of_entry, EntryStatus, FileChangeStatus};
use refact_lsp::scratchpad::cut_result;

#[test]
fn cut_at_end_of_text() {
    assert_eq!(cut_result("hello<|endoftext|>world", "<|endoftext|>", true), "hello");
}

#[test]
fn cut_at_blank_line() {
    assert_eq!(cut_result("ab\n\ncd<|endoftext|>", "<|endoftext|>", true), "ab");
}

#[test]
fn cut_at_line_break_when_single_line() {
    assert_eq!(cut_result("x = 1\r\ny = 2", "<|endoftext|>", false), "x = 1");
    assert_eq!(cut_result("a\rb\nc", "<|endoftext|>", false), "ab");
}

#[test]
fn multiline_keeps_single_line_breaks() {
    assert_eq!(cut_result("a\nb\r\nc\n\nd", "<|endoftext|>", true), "a\nb\nc");
}

#[test]
fn uncut_text_is_returned_whole() {
    assert_eq!(cut_result("a\r\nb", "<|endoftext|>", true), "a\r\nb");
    assert_eq!(cut_result("", "<|endoftext|>", false), "");
}

#[test]
fn cut_at_non_ascii_text() {
    assert_eq!(cut_result("été\nlà", "<eot>", false), "été");
    assert_eq!(cut_result("日本<eot>語", "<eot>", true), "日本");
}

#[test]
fn status_initials() {
    assert_eq!(FileChangeStatus::ADDED.initial(), 'A');
    assert_eq!(FileChangeStatus::MODIFIED.initial(), 'M');
    assert_eq!(FileChangeStatus::DELETED.initial(), 'D');
}

fn status(flags: [bool; 6]) -> EntryStatus {
    EntryStatus {
        index_new: flags[0],
        index_modified: flags[1],
        index_deleted: flags[2],
        wt_new: flags[3],
        wt_modified: flags[4],
        wt_deleted: flags[5],
    }
}

#[test]
fn staged_changes_only() {
    let st = status([true, false, false, false, true, false]);
    let r = file_changes_of_entry(&"src/a.rs".to_string(), &st, false);
    assert_eq!(r.len(), 1);
    assert_eq!(r[0].path, "src/a.rs");
    assert_eq!(r[0].status.initial(), 'A');
}

#[test]
fn staged_and_unstaged_changes() {
    let st = status([false, true, false, false, false, true]);
    let r = file_changes_of_entry(&"b.txt".to_string(), &st, true);
    let initials: Vec<char> = r.iter().map(|c| c.status.initial()).collect();
    assert_eq!(initials, vec!['M', 'D']);
}
