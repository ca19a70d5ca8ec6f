use blaze_db::page::{compute_page, PAGE_SIZE};

#[test]
fn compute_page_empty_index_has_one_page() {
    assert_eq!(compute_page(0, 0), (1, 1, 0, 0));
}

#[test]
fn compute_page_last_page_is_partial() {
    assert_eq!(compute_page(2500, 3), (3, 3, 2048, 2500));
}

#[test]
fn compute_page_out_of_range_falls_back_to_first() {
    assert_eq!(compute_page(2500, 9), (3, 1, 0, PAGE_SIZE));
}

#[test]
fn compute_page_second_of_three() {
    assert_eq!(compute_page(3000, 2), (3, 2, 1024, 2048));
}

#[test]
fn pages_cover_each_entry_once() {
    let total = 5000;
    let (pages, _, _, _) = compute_page(total, 1);
    let mut seen = vec![0u32; total];
    for p in 1..=pages {
        let (_, served, start, end) = compute_page(total, p);
        assert_eq!(served, p);
        for i in start..end {
            seen[i] += 1;
        }
    }
    assert!(seen.iter().all(|&c| c == 1));
}
