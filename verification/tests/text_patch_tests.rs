use post_body::text_patch::TextPatch;

fn check(old: &str, pos: u16, remove: u16, insert: &str, new: &str) {
    let expected = TextPatch {
        position: pos,
        remove,
        insert: insert.chars().collect(),
    };
    let old_chars: Vec<char> = old.chars().collect();
    let new_chars: Vec<char> = new.chars().collect();
    assert_eq!(TextPatch::new(&old_chars, &new_chars), expected);

    let mut out: Vec<char> = Vec::new();
    expected.apply(&mut out, &old_chars);
    let res: String = out.iter().collect();
    assert_eq!(res.as_str(), new);
}

#[test]
fn append() {
    check("a", 1, 0, "a", "aa");
}

#[test]
fn prepend() {
    check("bc", 0, 0, "a", "abc");
}

#[test]
fn append_to_empty_body() {
    check("", 0, 0, "abc", "abc");
}

#[test]
fn backspace() {
    check("abc", 2, 1, "", "ab");
}

#[test]
fn remove_one_from_front() {
    check("abc", 0, 1, "", "bc");
}

#[test]
fn remove_one_multibyte_char() {
    check("αΒΓΔ", 2, 1, "", "αΒΔ");
}

#[test]
fn inject_into_the_middle() {
    check("abc", 2, 0, "abc", "ababcc");
}

#[test]
fn inject_multibyte_into_the_middle() {
    check("αΒΓ", 2, 0, "Δ", "αΒΔΓ");
}

#[test]
fn replace_in_the_middle() {
    check("abc", 1, 1, "d", "adc");
}

#[test]
fn replace_multibyte_in_the_middle() {
    check("αΒΓ", 1, 1, "Δ", "αΔΓ");
}

#[test]
fn replace_suffix() {
    check("abc", 1, 2, "de", "ade");
}

#[test]
fn replace_prefix() {
    check("abc", 0, 2, "de", "dec");
}

#[test]
fn estimate_within_bound_is_exact() {
    let p = TextPatch {
        position: 1,
        remove: 2,
        insert: "xyz".chars().collect(),
    };
    // 10 - 2 + 3
    assert_eq!(p.estimate_new_size(10), 11);
}

#[test]
fn estimate_oversized_falls_back_to_destination_size() {
    let p = TextPatch {
        position: 0,
        remove: 0,
        insert: "x".repeat(5000).chars().collect(),
    };
    assert_eq!(p.estimate_new_size(10), 10);
}

#[test]
fn estimate_underflow_falls_back_to_destination_size() {
    let p = TextPatch {
        position: 0,
        remove: 9,
        insert: Vec::new(),
    };
    assert_eq!(p.estimate_new_size(4), 4);
}

#[test]
fn oversized_patch_applies_without_panicking() {
    // position and remove beyond the source just exhaust it
    let p = TextPatch {
        position: 100,
        remove: 100,
        insert: "xy".chars().collect(),
    };
    let src: Vec<char> = "ab".chars().collect();
    let mut out: Vec<char> = Vec::new();
    p.apply(&mut out, &src);
    let res: String = out.iter().collect();
    assert_eq!(res.as_str(), "abxy");
}
