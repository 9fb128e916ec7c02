use calculator::entries::{same_text, toggle_last_number_sign, ClickedButtons};

fn with(labels: &[&str]) -> ClickedButtons {
    let mut b = ClickedButtons::new();
    for l in labels {
        b.push(l);
    }
    b
}

fn last(b: &ClickedButtons) -> String {
    b.entry(b.len() - 1)
}

#[test]
fn toggle_twice_restores_number() {
    let mut b = with(&["1", "+", "7"]);
    toggle_last_number_sign(&mut b);
    assert_eq!(last(&b), "-7");
    assert_eq!(b.to_number_string(), "1+-7");
    toggle_last_number_sign(&mut b);
    assert_eq!(last(&b), "7");
}

#[test]
fn toggle_rewrites_number_text() {
    let mut b = with(&["2.50"]);
    toggle_last_number_sign(&mut b);
    assert_eq!(last(&b), "-2.5");
    let mut c = with(&["4.0000"]);
    toggle_last_number_sign(&mut c);
    assert_eq!(last(&c), "-4");
    let mut d = with(&["-0.25"]);
    toggle_last_number_sign(&mut d);
    assert_eq!(last(&d), "0.25");
    let mut e = with(&["0"]);
    toggle_last_number_sign(&mut e);
    assert_eq!(last(&e), "-0");
    toggle_last_number_sign(&mut e);
    assert_eq!(last(&e), "0");
}

#[test]
fn toggle_swaps_signs() {
    let mut b = with(&["3", "+"]);
    toggle_last_number_sign(&mut b);
    assert_eq!(last(&b), "-");
    toggle_last_number_sign(&mut b);
    assert_eq!(last(&b), "+");
}

#[test]
fn toggle_leaves_other_entries() {
    let mut b = with(&["3", "*"]);
    toggle_last_number_sign(&mut b);
    assert_eq!(b.to_number_string(), "3*");
    let mut e = ClickedButtons::new();
    toggle_last_number_sign(&mut e);
    assert_eq!(e.len(), 0);
}

#[test]
fn keys_build_and_evaluate() {
    let mut b = ClickedButtons::default();
    for k in ["1", "2", "+", "3", "*", "4"] {
        b.press(k);
    }
    assert_eq!(b.to_number_string(), "12+3*4");
    b.press("=");
    assert_eq!(b.len(), 1);
    assert_eq!(b.to_number_string(), "24.0000");
    b.press("+/-");
    assert_eq!(b.to_number_string(), "-24");
    b.press("/");
    b.press("8");
    b.press("=");
    assert_eq!(b.to_number_string(), "-3.0000");
    b.press("C");
    assert_eq!(b.to_number_string(), "");
    b.press("=");
    assert_eq!(b.to_number_string(), "Invalid input");
}

#[test]
fn text_comparison() {
    assert!(same_text("+/-", "+/-"));
    assert!(!same_text("+", "-"));
    assert!(!same_text("+", "+/-"));
}

#[test]
fn toggle_twice_restores_negative_zero() {
    let mut b = with(&["-0"]);
    toggle_last_number_sign(&mut b);
    assert_eq!(last(&b), "0");
    toggle_last_number_sign(&mut b);
    assert_eq!(last(&b), "-0");
}

#[test]
fn large_result_reads_back_on_equals() {
    let mut b = ClickedButtons::new();
    for k in ["999999999", "*", "999999999", "="] {
        b.press(k);
    }
    assert_eq!(b.to_number_string(), "999999998000000001.0000");
    b.press("=");
    assert_eq!(b.to_number_string(), "999999998000000001.0000");
}
