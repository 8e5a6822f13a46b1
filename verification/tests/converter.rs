use skkserv::converter::convert;
use skkserv::converter::time_candidates;

#[test]
fn test_time_candidates() {
    assert_eq!(
        time_candidates(2022, 2, 23),
        vec!["2022/02/23".to_string(), "2022-02-23".to_string()]
    );
}

#[test]
fn time_candidates_zero_pads() {
    assert_eq!(
        time_candidates(987, 6, 5),
        vec!["0987/06/05".to_string(), "0987-06-05".to_string()]
    );
}

#[test]
fn convert_unknown_word_gives_no_candidates() {
    assert!(convert("hello").is_empty());
    assert!(convert("").is_empty());
    assert!(convert("あしたた").is_empty());
}

#[test]
fn convert_known_word_gives_dates_or_nothing() {
    // The clock and the local offset decide the date, so only the shape of
    // the answer is fixed: both spellings of one date, or no candidates at
    // all when the local offset is unavailable.
    for word in ["おととい", "きのう", "きょう", "あした", "あす", "あさって"] {
        let r = convert(word);
        assert!(r.len() == 0 || r.len() == 2);
        if r.len() == 2 {
            let slashed = &r[0];
            let dashed = &r[1];
            assert_eq!(slashed.len(), 10);
            assert_eq!(dashed.len(), 10);
            assert_eq!(&slashed[4..5], "/");
            assert_eq!(&slashed[7..8], "/");
            assert_eq!(&dashed[4..5], "-");
            assert_eq!(&dashed[7..8], "-");
            assert_eq!(slashed[0..4], dashed[0..4]);
            assert_eq!(slashed[5..7], dashed[5..7]);
            assert_eq!(slashed[8..10], dashed[8..10]);
        }
    }
}
