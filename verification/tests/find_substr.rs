use strtools::find::longest_unique_substr;

#[test]
fn empty() {
    let range = longest_unique_substr("", None);
    assert_eq!(range, 0..0);
}

#[test]
fn simple_starting() {
    let input = "abcdeeeeeeeee";
    let range = longest_unique_substr(input, None);
    assert_eq!(range, 0..5);
    assert_eq!(&input[range], "abcde");
}

#[test]
fn single_repeating() {
    let input = "aaaaaaaaa";
    let range = longest_unique_substr(input, None);
    assert_eq!(range, 0..1);
    assert_eq!(&input[range], "a");
}

#[test]
fn full() {
    let input = "abcdefghijklmnopqrstuvwxyz";
    let range = longest_unique_substr(input, None);
    assert_eq!(range, 0..26);
    assert_eq!(&input[range], "abcdefghijklmnopqrstuvwxyz");
}

#[test]
fn repeating_first() {
    let input = "abcdeabcde";
    let range = longest_unique_substr(input, None);
    assert_eq!(range, 0..5);
    assert_eq!(&input[range], "abcde");
}

#[test]
fn overlapping_current_longest() {
    let input = "abcdeafghijkl";
    let range = longest_unique_substr(input, None);
    assert_eq!(range, 1..13);
    assert_eq!(&input[range], "bcdeafghijkl");
}

#[test]
fn max_reached() {
    let input = "abcdefghijklmnopqrstuvwxyz";
    let range = longest_unique_substr(input, Some(6));
    assert_eq!(range, 0..6);
    assert_eq!(&input[range], "abcdef");
}

#[test]
fn max_reached_end() {
    let input = "aaaaabcdef";
    let range = longest_unique_substr(input, Some(6));
    assert_eq!(range, 4..10);
    assert_eq!(&input[range], "abcdef");
}

#[test]
fn max_not_exceeded() {
    let input = "abcdeöfghijkl";
    let range = longest_unique_substr(input, Some(6));
    assert_eq!(range, 0..5);
    assert_eq!(&input[range], "abcde");
}

#[test]
fn max_not_exceeded_end() {
    let input = "aaaaabcdeö";
    let range = longest_unique_substr(input, Some(6));
    assert_eq!(range, 4..9);
    assert_eq!(&input[range], "abcde");
}

#[test]
fn longer_later_run() {
    let input = "abc_defgh_ijklmnopqrstuvwxyz";
    let range = longest_unique_substr(input, None);
    assert_eq!(&input[range], "defgh_ijklmnopqrstuvwxyz");
}

#[test]
fn duplicate_of_second_char() {
    // the window must keep chars that are still inside it when it shifts
    let input = "abcaba";
    let range = longest_unique_substr(input, None);
    assert_eq!(range, 0..3);
    assert_eq!(&input[range], "abc");
}
