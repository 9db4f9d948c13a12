use strtools::split::n_times;
use strtools::util::Sorted;

#[test]
pub fn n_times_non_overlapping() {
    assert_eq!(
        n_times("abcdefghijkl", &Sorted::new([4, 8]).unwrap()),
        (["abcd", "efgh"], "ijkl")
    );
}

#[test]
pub fn n_times_non_boundary() {
    let none: Sorted<usize, 0> = Sorted::new([]).unwrap();
    assert_eq!(n_times("abcdefgh", &none), ([], "abcdefgh"));
    assert_eq!(
        n_times("abcdefgh", &Sorted::new([0]).unwrap()),
        ([""], "abcdefgh")
    );
    assert_eq!(
        n_times("abcdefgh", &Sorted::new([8]).unwrap()),
        (["abcdefgh"], "")
    );
}

#[test]
pub fn n_times_non_repeating() {
    assert_eq!(
        n_times("abcdefghijkl", &Sorted::new([4, 4, 4, 8]).unwrap()),
        (["abcd", "", "", "efgh"], "ijkl")
    );
}
