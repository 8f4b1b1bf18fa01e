use mandelbrot::parse::{both, find_separator, parse_pair, split_pair};

#[test]
fn test_parse_pair() {
    assert_eq!(parse_pair::<i32>("", ','), None);
    assert_eq!(parse_pair::<i32>("10,", ','), None);
    assert_eq!(parse_pair::<i32>(",10", ','), None);
    assert_eq!(parse_pair::<i32>("10,20", ','), Some((10, 20)));
    assert_eq!(parse_pair::<i32>("10,20xy", ','), None);
    assert_eq!(parse_pair::<f64>("0.5x", 'x'), None);
    assert_eq!(parse_pair::<f64>("0.5x1.5", 'x'), Some((0.5, 1.5)));
}

#[test]
fn parse_pair_reads_dimensions() {
    assert_eq!(parse_pair::<usize>("4000x3000", 'x'), Some((4000, 3000)));
    assert_eq!(parse_pair::<usize>("1x1", 'x'), Some((1, 1)));
    assert_eq!(parse_pair::<usize>("4000,3000", 'x'), None);
    assert_eq!(parse_pair::<usize>("-1x3", 'x'), None);
    assert_eq!(parse_pair::<usize>("4000x", 'x'), None);
}

#[test]
fn parse_pair_reads_coordinates() {
    assert_eq!(parse_pair::<f64>("1.25,-0.0625", ','), Some((1.25, -0.0625)));
    assert_eq!(parse_pair::<f64>(",-0.0625", ','), None);
    assert_eq!(parse_pair::<f64>("-1.20,0.35", ','), Some((-1.2, 0.35)));
    assert_eq!(parse_pair::<f64>("-1,0.20", ','), Some((-1.0, 0.2)));
}

#[test]
fn parse_pair_splits_at_the_first_separator_only() {
    assert_eq!(parse_pair::<i32>("1,2,3", ','), None);
    assert_eq!(
        parse_pair::<String>("1,2,3", ','),
        Some(("1".to_string(), "2,3".to_string()))
    );
    assert_eq!(
        parse_pair::<String>(",", ','),
        Some((String::new(), String::new()))
    );
}

#[test]
fn find_separator_gives_the_first_position() {
    assert_eq!(find_separator("", ','), None);
    assert_eq!(find_separator("abc", ','), None);
    assert_eq!(find_separator(",", ','), Some(0));
    assert_eq!(find_separator("10,20", ','), Some(2));
    assert_eq!(find_separator("a,b,c", ','), Some(1));
    assert_eq!(find_separator("400x600", 'x'), Some(3));
}

#[test]
fn find_separator_counts_characters() {
    assert_eq!(find_separator("é,1", ','), Some(1));
    assert_eq!(find_separator("日本x語", 'x'), Some(2));
    assert_eq!(find_separator("日本語", '本'), Some(1));
}

#[test]
fn split_pair_keeps_both_halves_without_the_separator() {
    assert_eq!(split_pair("10,20", ','), Some(("10", "20")));
    assert_eq!(split_pair("10,", ','), Some(("10", "")));
    assert_eq!(split_pair(",10", ','), Some(("", "10")));
    assert_eq!(split_pair(",", ','), Some(("", "")));
    assert_eq!(split_pair("a,b,c", ','), Some(("a", "b,c")));
    assert_eq!(split_pair("é,ü", ','), Some(("é", "ü")));
    assert_eq!(split_pair("日本x語", 'x'), Some(("日本", "語")));
}

#[test]
fn split_pair_without_separator_is_none() {
    assert_eq!(split_pair("", ','), None);
    assert_eq!(split_pair("1020", ','), None);
    assert_eq!(split_pair("10x20", ','), None);
}

#[test]
fn both_needs_both() {
    assert_eq!(both(Some(1), Some(2)), Some((1, 2)));
    assert_eq!(both(Some(1), None), None);
    assert_eq!(both(None, Some(2)), None);
    assert_eq!(both::<i32>(None, None), None);
}
