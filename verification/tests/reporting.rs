use cowtree::output::{
    branch_label, bytes, envelope, position, progress_word, status_label, status_symbol,
    success_words, CompactOutcome, CompactResult, CompactSummary, StatusResult,
};
use cowtree::receipt::ReceiptState;
use cowtree::tuning::{directory_clone_workers, directory_clone_workers_for};

#[test]
fn directory_workers_respect_cores_cap_and_work() {
    assert_eq!(directory_clone_workers_for(16, 20), 8);
    assert_eq!(directory_clone_workers_for(4, 20), 4);
    assert_eq!(directory_clone_workers_for(16, 3), 3);
    assert_eq!(directory_clone_workers_for(16, 0), 0);
}

#[test]
fn one_worker_where_the_cores_are_unknown() {
    assert_eq!(directory_clone_workers(None, 20), 1);
    assert_eq!(directory_clone_workers(Some(6), 20), 6);
}

/// The same with floating-point numbers.
fn float_bytes(value: u64) -> String {
    let units = ["B", "KiB", "MiB", "GiB", "TiB"];
    let mut amount = value as f64;
    let mut unit = 0;
    while amount >= 1024.0 && unit + 1 < units.len() {
        amount /= 1024.0;
        unit += 1;
    }
    if unit == 0 {
        format!("{value} B")
    } else {
        format!("{amount:.2} {}", units[unit])
    }
}

#[test]
fn sizes_are_shown_in_the_unit_that_suits_them() {
    assert_eq!(bytes(0), "0 B");
    assert_eq!(bytes(1023), "1023 B");
    assert_eq!(bytes(1024), "1.00 KiB");
    assert_eq!(bytes(1536), "1.50 KiB");
    assert_eq!(bytes(1048575), "1024.00 KiB");
    assert_eq!(bytes(1048576), "1.00 MiB");
    assert_eq!(bytes(5 * 1024 * 1024 * 1024), "5.00 GiB");
    assert_eq!(bytes(u64::MAX), "16777216.00 TiB");
}

#[test]
fn sizes_agree_with_floating_point() {
    let mut value: u64 = 1;
    for i in 0..20000u64 {
        assert_eq!(bytes(value), float_bytes(value));
        value = value
            .wrapping_mul(6364136223846793005)
            .wrapping_add(1442695040888963407)
            >> (i % 50);
    }
    for shift in 0..64 {
        for offset in 0..5u64 {
            let near = (1u64 << shift).wrapping_add(offset).wrapping_sub(2);
            assert_eq!(bytes(near), float_bytes(near));
        }
    }
    // Halves go to the even neighbour.
    for n in 0..1024u64 {
        assert_eq!(bytes(1024 + n), float_bytes(1024 + n));
    }
}

fn result(cloned: Option<u64>, eligible: Option<u64>) -> CompactResult {
    CompactResult {
        branch: None,
        path: "/wt".to_string(),
        status: ReceiptState::Stale,
        outcome: CompactOutcome::Compacted,
        cloned_files: cloned,
        eligible_files: eligible,
        eligible_logical_bytes: None,
        eligible_allocated_bytes: Some(2048),
        skipped_divergent_paths: None,
        skipped_changed_paths: None,
        error: None,
    }
}

#[test]
fn lines_have_their_words() {
    assert_eq!(position(2, 10), "[2/10]");
    assert_eq!(progress_word(true), "Inspecting");
    assert_eq!(progress_word(false), "Compacting");
    let words = success_words(&result(Some(1), Some(5)), false);
    assert_eq!((words.action, words.files, words.unit), ("compacted", 1, "file"));
    assert_eq!(words.eligible, "2.00 KiB");
    let words = success_words(&result(Some(1), Some(5)), true);
    assert_eq!((words.action, words.files, words.unit), ("would compact", 5, "files"));
    let words = success_words(&result(None, None), false);
    assert_eq!((words.files, words.unit), (0, "files"));
}

#[test]
fn states_have_labels_and_signs() {
    let all = [
        (ReceiptState::Compacted, "compacted", "✓"),
        (ReceiptState::Created, "created", "◆"),
        (ReceiptState::Stale, "stale", "!"),
        (ReceiptState::NotCompacted, "not compacted", "○"),
        (ReceiptState::Invalid, "invalid receipt", "✗"),
        (ReceiptState::Unknown, "unknown", "?"),
    ];
    for (state, label, symbol) in all {
        assert_eq!(status_label(state), label);
        assert_eq!(status_symbol(state), symbol);
    }
    let row = StatusResult { branch: None, path: String::new(), status: ReceiptState::Stale };
    assert_eq!(branch_label(&row), "(detached)");
}

#[test]
fn reports_carry_their_version() {
    let report = envelope("status", vec![1, 2], None);
    assert_eq!(report.schema_version, 1);
    assert_eq!((report.command, report.results), ("status", vec![1, 2]));
    let zero = CompactSummary::default();
    assert_eq!(zero.compacted + zero.already_compacted + zero.dry_run + zero.failed, 0);
}
