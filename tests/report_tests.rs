use spritezip::byte_counter::ByteCounter;
use spritezip::text::pretty_print_percent;
use spritezip::verify::{compare_images, is_final, merge_results, VerificationResult};

#[test]
fn percent_text() {
    assert_eq!(pretty_print_percent(1, 2), " 50.000%");
    assert_eq!(pretty_print_percent(1, 3), " 33.333%");
    assert_eq!(pretty_print_percent(2, 3), " 66.667%");
    assert_eq!(pretty_print_percent(1, 1), "100.000%");
    assert_eq!(pretty_print_percent(0, 7), "  0.000%");
    assert_eq!(pretty_print_percent(1, 8), " 12.500%");
    assert_eq!(pretty_print_percent(123456, 100), "123456.000%");
    assert_eq!(pretty_print_percent(0, 0), "    NaN%");
    assert_eq!(pretty_print_percent(5, 0), "    inf%");
}

#[test]
fn percent_text_matches_float_formatting() {
    for (n, d) in [(1u64, 2u64), (3, 7), (10, 3), (999, 1000), (5, 9), (12345, 54321)] {
        let f = format!("{:7.3}%", n as f64 / d as f64 * 100.0);
        assert_eq!(pretty_print_percent(n, d), f);
    }
}

#[test]
fn byte_counter_counts_and_reports() {
    let mut c = ByteCounter::new(Vec::<u8>::new(), 10);
    assert_eq!(c.bytes_written(), 0);
    assert!(!c.record_write(4));
    assert!(!c.record_write(6));
    assert!(c.record_write(1));
    assert!(!c.record_write(10));
    assert_eq!(c.bytes_written(), 21);
    assert!(c.into_inner().is_empty());
}

fn px(r: u8, g: u8, b: u8, a: u8) -> Vec<u8> {
    vec![r, g, b, a]
}

#[test]
fn exact_match() {
    let a = [px(1, 2, 3, 4), px(5, 6, 7, 8)].concat();
    assert_eq!(compare_images(&a, &a.clone()), VerificationResult::ExactMatch);
    assert_eq!(compare_images(&[], &[]), VerificationResult::ExactMatch);
}

#[test]
fn invisible_pixel_tolerated() {
    let input = [px(10, 20, 30, 0), px(1, 1, 1, 255)].concat();
    let output = [px(0, 0, 0, 0), px(1, 1, 1, 255)].concat();
    assert_eq!(compare_images(&input, &output), VerificationResult::InvisibleMatch);
}

#[test]
fn visible_difference_fails() {
    let input = [px(10, 20, 30, 0), px(1, 1, 1, 255)].concat();
    let output = [px(0, 0, 0, 0), px(1, 1, 2, 255)].concat();
    assert_eq!(compare_images(&input, &output), VerificationResult::Failure);
    let output = [px(10, 20, 30, 1), px(1, 1, 1, 255)].concat();
    assert_eq!(compare_images(&input, &output), VerificationResult::Failure);
    assert_eq!(compare_images(&input, &input[..4]), VerificationResult::Failure);
}

#[test]
fn folder_results_fold() {
    let (e, i, f, n) = (
        VerificationResult::ExactMatch,
        VerificationResult::InvisibleMatch,
        VerificationResult::Failure,
        VerificationResult::NotFound,
    );
    assert_eq!(merge_results(e, e), e);
    assert_eq!(merge_results(e, i), i);
    assert_eq!(merge_results(i, e), i);
    assert_eq!(merge_results(i, f), f);
    assert_eq!(merge_results(e, n), n);
    assert_eq!(merge_results(f, n), f);
    assert!(is_final(f) && is_final(n));
    assert!(!is_final(e) && !is_final(i));
}
