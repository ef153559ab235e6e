use http_follow::punycode::is_encodable;

#[test]
fn ascii_labels_need_no_numbers() {
    assert!(is_encodable(""));
    assert!(is_encodable("."));
    assert!(is_encodable(&"example.".repeat(10_000)));
}

#[test]
fn numbers_up_to_the_last_that_fits() {
    // A code point after some letters counts from 0x80 for each place, and for each letter.
    let fitting = |code: u32, letters: usize| {
        let last = char::from_u32(code).unwrap();
        is_encodable(&format!("{}{}", "a".repeat(letters), last))
    };
    let letters: u64 = 3855;
    let most = 0x80 + ((u64::from(u32::MAX) - letters) / (letters + 1)) as u32;
    assert!(fitting(most, 3855));
    assert!(!fitting(most + 1, 3855));
    assert!(fitting(0x10ffff, 3854));
}

#[test]
fn what_stands_behind_is_not_counted() {
    let label = format!("\u{20000}{}", "a".repeat(32_799));
    assert!(is_encodable(&label));
    assert!(!is_encodable(&format!("{}{}", "a".repeat(32_799), "\u{20000}")));
}

#[test]
fn every_label_counts() {
    let long = format!("{}\u{10ffff}", "a".repeat(4000));
    assert!(!is_encodable(&long));
    assert!(!is_encodable(&format!("a.{}", long)));
    assert!(!is_encodable(&format!("{}.a", long)));
    assert!(!is_encodable(&format!("a.{}.a", long)));
    let half = "a".repeat(2000);
    assert!(is_encodable(&format!("{}.{}\u{10ffff}", half, half)));
}

#[test]
fn code_points_told_before_shorten_the_way() {
    let letters = "a".repeat(4000);
    assert!(!is_encodable(&format!("{}\u{10ffff}", letters)));
    assert!(is_encodable(&format!("{}\u{80000}\u{10ffff}", letters)));
    assert!(is_encodable(&format!("{}{}", letters, "\u{e4}".repeat(4000))));
}
