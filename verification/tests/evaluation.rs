use diff_ways::cache::Cache;
use diff_ways::combiner::{combine, EvalError, Operator};
use diff_ways::number::{is_number, parse_number};
use diff_ways::partition::{diff_ways_to_compute, evaluate, evaluate_segment};
use diff_ways::shared::{evaluate_shared, evaluate_shared_segment, SharedCache};

fn fresh(expr: &str) -> Result<Vec<i32>, EvalError> {
    let mut cache = Cache::new();
    diff_ways_to_compute(&mut cache, expr.to_string())
}

#[test]
fn literal_evaluates_to_itself() {
    assert_eq!(fresh("42"), Ok(vec![42]));
    assert_eq!(fresh("0"), Ok(vec![0]));
    assert_eq!(fresh("-7"), Ok(vec![-7]));
    assert_eq!(fresh("+5"), Ok(vec![5]));
    assert_eq!(fresh("007"), Ok(vec![7]));
    assert_eq!(fresh("2147483647"), Ok(vec![i32::MAX]));
    assert_eq!(fresh("-2147483648"), Ok(vec![i32::MIN]));
}

fn sorted(mut values: Vec<i32>) -> Vec<i32> {
    values.sort();
    values
}

#[test]
fn two_subtractions() {
    // split at the first '-': 2 - (1-1); at the second: (2-1) - 1
    assert_eq!(fresh("2-1-1"), Ok(vec![2, 0]));
    assert_eq!(fresh("2-1-1").map(sorted), Ok(vec![0, 2]));
}

#[test]
fn products_and_a_difference_keep_duplicates() {
    // 2*(3-(4*5)), 2*((3-4)*5), (2*3)-(4*5), (2*(3-4))*5, ((2*3)-4)*5
    assert_eq!(fresh("2*3-4*5"), Ok(vec![-34, -10, -14, -10, 10]));
    assert_eq!(fresh("2*3-4*5").map(sorted), Ok(vec![-34, -14, -10, -10, 10]));
}

#[test]
fn single_operator_of_each_kind() {
    assert_eq!(fresh("6+3"), Ok(vec![9]));
    assert_eq!(fresh("6-3"), Ok(vec![3]));
    assert_eq!(fresh("6*3"), Ok(vec![18]));
    assert_eq!(fresh("12*10"), Ok(vec![120]));
}

#[test]
fn three_operands_in_split_order() {
    // split at '+': 1 + (2*3); split at '*': (1+2) * 3
    assert_eq!(fresh("1+2*3"), Ok(vec![7, 9]));
}

#[test]
fn evaluating_twice_gives_the_same_and_leaves_the_cache() {
    let mut cache = Cache::new();
    let first = evaluate(&mut cache, "2*3-4*5");
    let entries = cache.len();
    let second = evaluate(&mut cache, "2*3-4*5");
    assert_eq!(first, second);
    assert_eq!(second, Ok(vec![-34, -10, -14, -10, 10]));
    assert_eq!(cache.len(), entries);
    assert_eq!(cache.get("2*3-4*5"), Some(vec![-34, -10, -14, -10, 10]));
}

#[test]
fn every_subproblem_is_cached() {
    let mut cache = Cache::new();
    assert_eq!(evaluate(&mut cache, "2-1-1"), Ok(vec![2, 0]));
    assert_eq!(cache.get("2"), Some(vec![2]));
    assert_eq!(cache.get("1"), Some(vec![1]));
    assert_eq!(cache.get("1-1"), Some(vec![0]));
    assert_eq!(cache.get("2-1"), Some(vec![1]));
    assert_eq!(cache.get("2-1-1"), Some(vec![2, 0]));
    assert_eq!(cache.len(), 5);
}

#[test]
fn shared_substring_is_reused() {
    let mut cache = Cache::new();
    assert_eq!(evaluate(&mut cache, "2*3-4*5"), Ok(vec![-34, -10, -14, -10, 10]));
    assert!(cache.contains("4*5"));
    let before = cache.len();
    assert_eq!(evaluate(&mut cache, "1+4*5"), Ok(vec![21, 25]));
    // new: "1+4*5", "1", "1+4"; reused: "4", "5", "4*5"
    assert_eq!(cache.len(), before + 3);
    assert_eq!(cache.get("4*5"), Some(vec![20]));
}

#[test]
fn a_hit_returns_what_is_stored() {
    let mut cache = Cache::new();
    cache.put("1+1".to_string(), vec![2]);
    assert_eq!(evaluate(&mut cache, "1+1"), Ok(vec![2]));
    assert_eq!(cache.len(), 1);
    assert!(!cache.contains("1"));
}

#[test]
fn leading_sign_belongs_to_the_literal() {
    let mut cache = Cache::new();
    assert_eq!(evaluate(&mut cache, "-1+2"), Ok(vec![1]));
    assert!(!cache.contains(""));
    assert_eq!(cache.get("-1"), Some(vec![-1]));
    assert_eq!(cache.len(), 3);
}

#[test]
fn sign_after_an_operator() {
    let mut cache = Cache::new();
    assert_eq!(evaluate(&mut cache, "2--1"), Ok(vec![3]));
    assert!(!cache.contains(""));
    assert_eq!(cache.get("2-"), Some(vec![]));
}

#[test]
fn no_split_at_either_end() {
    assert_eq!(fresh("2-"), Ok(vec![]));
    assert_eq!(fresh("+"), Ok(vec![]));
    assert_eq!(fresh("*3"), Ok(vec![]));
}

#[test]
fn text_without_operator_that_is_no_number_is_malformed() {
    assert_eq!(fresh(""), Err(EvalError::MalformedExpression));
    assert_eq!(fresh("abc"), Err(EvalError::MalformedExpression));
    assert_eq!(fresh("99999999999"), Err(EvalError::MalformedExpression));
    assert_eq!(fresh("2147483648"), Err(EvalError::MalformedExpression));
    assert_eq!(fresh("2a+3"), Err(EvalError::MalformedExpression));
    assert_eq!(fresh("1 +2"), Err(EvalError::MalformedExpression));
}

#[test]
fn overflow_is_reported() {
    assert_eq!(fresh("2147483647+1"), Err(EvalError::Overflow));
    assert_eq!(fresh("-2147483648-1"), Err(EvalError::Overflow));
    assert_eq!(fresh("65536*65536"), Err(EvalError::Overflow));
    assert_eq!(fresh("2147483647+0"), Ok(vec![i32::MAX]));
}

#[test]
fn failure_caches_only_what_was_resolved() {
    let mut cache = Cache::new();
    assert_eq!(evaluate(&mut cache, "2147483647+1"), Err(EvalError::Overflow));
    assert!(!cache.contains("2147483647+1"));
    assert_eq!(cache.get("2147483647"), Some(vec![i32::MAX]));
    assert_eq!(cache.get("1"), Some(vec![1]));
    assert_eq!(cache.len(), 2);
}

#[test]
fn first_failure_wins() {
    // the left side of the first split is malformed before any overflow is met
    assert_eq!(fresh("x+2147483647+1"), Err(EvalError::MalformedExpression));
    assert_eq!(fresh("2147483647+1+x"), Err(EvalError::MalformedExpression));
    assert_eq!(fresh("1+2147483647+1"), Err(EvalError::Overflow));
}

#[test]
fn segment_entry_point_agrees() {
    let mut cache = Cache::new();
    assert_eq!(evaluate_segment(&mut cache, "2-1-1"), Ok(vec![2, 0]));
}

#[test]
fn non_ascii_text_is_split_by_characters() {
    assert_eq!(fresh("é"), Err(EvalError::MalformedExpression));
    assert_eq!(fresh("é+1"), Err(EvalError::MalformedExpression));
}

#[test]
fn combine_is_left_major() {
    assert_eq!(
        combine(&vec![1, 2], &vec![10, 20], Operator::Sub),
        Ok(vec![-9, -19, -8, -18])
    );
    assert_eq!(
        combine(&vec![1, 2], &vec![10, 20], Operator::Add),
        Ok(vec![11, 21, 12, 22])
    );
    assert_eq!(
        combine(&vec![1, 2, 3], &vec![10, 20], Operator::Mul),
        Ok(vec![10, 20, 20, 40, 30, 60])
    );
}

#[test]
fn combine_with_an_empty_side_is_empty() {
    assert_eq!(combine(&vec![], &vec![1], Operator::Add), Ok(vec![]));
    assert_eq!(combine(&vec![i32::MAX], &vec![], Operator::Mul), Ok(vec![]));
}

#[test]
fn combine_overflow() {
    assert_eq!(combine(&vec![i32::MAX], &vec![1], Operator::Add), Err(EvalError::Overflow));
    assert_eq!(combine(&vec![i32::MIN], &vec![1], Operator::Sub), Err(EvalError::Overflow));
    assert_eq!(combine(&vec![i32::MIN], &vec![-1], Operator::Mul), Err(EvalError::Overflow));
    assert_eq!(combine(&vec![1, i32::MAX], &vec![0, 1], Operator::Add), Err(EvalError::Overflow));
    assert_eq!(combine(&vec![i32::MAX], &vec![1], Operator::Sub), Ok(vec![i32::MAX - 1]));
}

#[test]
fn operator_of_character() {
    assert_eq!(Operator::from_char('+'), Some(Operator::Add));
    assert_eq!(Operator::from_char('-'), Some(Operator::Sub));
    assert_eq!(Operator::from_char('*'), Some(Operator::Mul));
    assert_eq!(Operator::from_char('/'), None);
    assert_eq!(Operator::from_char('1'), None);
}

#[test]
fn checked_apply_values() {
    assert_eq!(Operator::Add.checked_apply(2, 3), Some(5));
    assert_eq!(Operator::Sub.checked_apply(2, 3), Some(-1));
    assert_eq!(Operator::Mul.checked_apply(2, 3), Some(6));
    assert_eq!(Operator::Mul.checked_apply(46341, 46341), None);
    assert_eq!(Operator::Mul.checked_apply(46340, 46340), Some(2147395600));
}

#[test]
fn number_detector() {
    assert!(is_number("0"));
    assert!(is_number("123"));
    assert!(is_number("-123"));
    assert!(is_number("+123"));
    assert!(is_number("2147483647"));
    assert!(is_number("-2147483648"));
    assert!(is_number("-0"));
    assert!(!is_number(""));
    assert!(!is_number("+"));
    assert!(!is_number("-"));
    assert!(!is_number("--1"));
    assert!(!is_number("+-1"));
    assert!(!is_number("1-"));
    assert!(!is_number("1+2"));
    assert!(!is_number(" 1"));
    assert!(!is_number("1 "));
    assert!(!is_number("2147483648"));
    assert!(!is_number("-2147483649"));
    assert!(!is_number("12a"));
    assert!(!is_number("١٢"));
}

#[test]
fn number_detector_agrees_with_std() {
    let samples = [
        "", "0", "00", "-0", "+0", "7", "-7", "+7", "+-7", "2147483647", "2147483648",
        "-2147483648", "-2147483649", "00000000000000000001", "99999999999999999999999",
        "1_000", "0x10", "1e3", "1.0", "-", "+", "*", "1+1",
    ];
    for s in samples {
        assert_eq!(parse_number(s), s.parse::<i32>().ok(), "{}", s);
        assert_eq!(is_number(s), s.parse::<i32>().is_ok(), "{}", s);
    }
}

#[test]
fn parse_number_values() {
    assert_eq!(parse_number("12345"), Some(12345));
    assert_eq!(parse_number("-12345"), Some(-12345));
    assert_eq!(parse_number("+0012"), Some(12));
    assert_eq!(parse_number("-2147483648"), Some(i32::MIN));
    assert_eq!(parse_number("12x"), None);
}

#[test]
fn cache_put_and_get() {
    let mut cache = Cache::new();
    assert_eq!(cache.len(), 0);
    assert_eq!(cache.get("1+2"), None);
    cache.put("1+2".to_string(), vec![3]);
    assert_eq!(cache.get("1+2"), Some(vec![3]));
    assert_eq!(cache.get("2+1"), None);
    assert!(cache.contains("1+2"));
    assert!(!cache.contains("2+1"));
    cache.put("1+2".to_string(), vec![3]);
    assert_eq!(cache.len(), 1);
    cache.put("1+2".to_string(), vec![4, 5]);
    assert_eq!(cache.get("1+2"), Some(vec![4, 5]));
    assert_eq!(cache.len(), 1);
}

#[test]
fn shared_cache_gives_the_same_values() {
    let cache = SharedCache::new();
    assert_eq!(evaluate_shared(&cache, "2-1-1"), Ok(vec![2, 0]));
    assert_eq!(evaluate_shared(&cache, "2*3-4*5"), Ok(vec![-34, -10, -14, -10, 10]));
    assert_eq!(evaluate_shared(&cache, "2*3-4*5"), Ok(vec![-34, -10, -14, -10, 10]));
    assert_eq!(evaluate_shared(&cache, "-1+2"), Ok(vec![1]));
    assert_eq!(evaluate_shared(&cache, "17"), Ok(vec![17]));
    assert_eq!(evaluate_shared_segment(&cache, "1+2*3"), Ok(vec![7, 9]));
}

#[test]
fn shared_cache_keeps_what_was_resolved() {
    let cache = SharedCache::new();
    assert_eq!(cache.get("2-1"), None);
    assert_eq!(evaluate_shared(&cache, "2-1-1"), Ok(vec![2, 0]));
    assert_eq!(cache.get("2-1-1"), Some(vec![2, 0]));
    assert_eq!(cache.get("2-1"), Some(vec![1]));
    assert_eq!(cache.get("1-1"), Some(vec![0]));
    assert_eq!(cache.get(""), None);
}

#[test]
fn shared_cache_failures() {
    let cache = SharedCache::new();
    assert_eq!(evaluate_shared(&cache, ""), Err(EvalError::MalformedExpression));
    assert_eq!(evaluate_shared(&cache, "1+x"), Err(EvalError::MalformedExpression));
    assert_eq!(evaluate_shared(&cache, "2147483647+1"), Err(EvalError::Overflow));
    assert_eq!(cache.get("2147483647+1"), None);
    assert_eq!(cache.get("2147483647"), Some(vec![i32::MAX]));
}

#[test]
fn shared_cache_put_then_get() {
    let cache = SharedCache::new();
    cache.put("1+2".to_string(), vec![3]);
    assert_eq!(cache.get("1+2"), Some(vec![3]));
    assert_eq!(evaluate_shared(&cache, "1+2"), Ok(vec![3]));
}

#[test]
fn shared_cache_starts_empty() {
    let cache = SharedCache::new();
    assert_eq!(cache.get("1"), None);
    assert_eq!(cache.get(""), None);
}

#[test]
fn shared_cache_finds_what_it_was_made_with() {
    let mut warm = Cache::new();
    assert_eq!(evaluate(&mut warm, "2*3-4*5"), Ok(vec![-34, -10, -14, -10, 10]));
    let cache = SharedCache::from_cache(warm);
    assert_eq!(cache.get("2*3-4*5"), Some(vec![-34, -10, -14, -10, 10]));
    assert_eq!(cache.get("4*5"), Some(vec![20]));
    assert_eq!(cache.get("3-4"), Some(vec![-1]));
    assert_eq!(cache.get("1+1"), None);
    assert_eq!(evaluate_shared(&cache, "1+4*5"), Ok(vec![21, 25]));
    assert_eq!(cache.get("4*5"), Some(vec![20]));
    assert_eq!(cache.get("1+4"), Some(vec![5]));
}
