//! Truncation of diagnostics.
use outbox_kit::{truncate_error, MAX_ERROR_BYTES};

#[test]
fn truncate_error_passes_short_messages() {
    assert_eq!(truncate_error("boom"), "boom");
    assert_eq!(truncate_error(&"x".repeat(1024)), "x".repeat(1024));
}

#[test]
fn truncate_error_caps_at_1kib() {
    let long = "x".repeat(4096);
    assert_eq!(truncate_error(&long).len(), MAX_ERROR_BYTES);
}

#[test]
fn truncate_error_respects_char_boundaries() {
    // 'é' is 2 bytes; a naive 1024-byte cut lands mid-character.
    let multi = "é".repeat(1024); // 2048 bytes
    let truncated = truncate_error(&multi);
    assert!(truncated.len() <= MAX_ERROR_BYTES);
    assert!(truncated.chars().all(|c| c == 'é'));
    // Multi-byte near the boundary.
    let mixed = format!("{}{}", "a".repeat(1023), "ééé");
    let truncated = truncate_error(&mixed);
    assert!(truncated.is_char_boundary(truncated.len()));
    assert_eq!(truncated, "a".repeat(1023));
}

#[test]
fn truncate_error_never_returns_invalid_utf8() {
    for n in 0..64 {
        let s = "ü".repeat(n);
        let t = truncate_error(&s);
        assert!(t.chars().all(|c| c == 'ü'));
    }
}

#[test]
fn truncation_keeps_the_longest_beginning_that_fits() {
    for lead in 1018..1027 {
        for tail in ["x", "é", "€", "🙂"] {
            let text = format!("{}{}", "a".repeat(lead), tail.repeat(4));
            let kept = truncate_error(&text);
            assert!(text.starts_with(&kept));
            assert!(kept.len() <= MAX_ERROR_BYTES);
            if let Some(next) = text[kept.len()..].chars().next() {
                assert!(kept.len() + next.len_utf8() > MAX_ERROR_BYTES);
            }
        }
    }
}
