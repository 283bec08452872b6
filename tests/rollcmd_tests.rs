use rcmd::notation::parse_piece;
use rcmd::roll_cmd::{parse_all, roll_all};
use rcmd::roll_result::decimal_string;
use rcmd::{RollCmd, RollResult};

#[test]
fn can_parse_full_rollcmds() {
    let cmd = RollCmd::new(2, 6);
    assert!(cmd == "2d6".parse().unwrap());
}

#[test]
fn can_parse_short_rollcmds() {
    let cmd = RollCmd::new(1, 6);
    assert!(cmd == "6".parse().unwrap());
}

#[test]
fn full_token_gives_count_and_sides() {
    assert_eq!(RollCmd::parse("3d8"), Ok(RollCmd::new(3, 8)));
    assert_eq!(RollCmd::parse("10d20"), Ok(RollCmd::new(10, 20)));
    assert_eq!(RollCmd::parse("4294967295d4294967295"), Ok(RollCmd::new(u32::MAX, u32::MAX)));
}

#[test]
fn single_token_is_one_die() {
    assert_eq!(RollCmd::parse("20"), Ok(RollCmd::new(1, 20)));
    assert_eq!(RollCmd::parse("100"), Ok(RollCmd::new(1, 100)));
}

#[test]
fn roll_at_maximum() {
    let cmd = RollCmd::parse("2d6").unwrap();
    let result = cmd.result(|max| max);
    assert_eq!(result.values(), &[6, 6]);
}

#[test]
fn parse_six_equals_new() {
    let cmd: RollCmd = "6".parse().unwrap();
    assert!(cmd == RollCmd::new(1, 6));
}

#[test]
fn result_totals_and_displays() {
    let result = RollResult::new(vec![2, 3, 3]);
    assert_eq!(result.total(), 8);
    assert_eq!(result.to_display_string(), "2, 3, 3 (Total: 8)");
}

#[test]
fn empty_result_displays_leading_space() {
    let result = RollResult::new(vec![]);
    assert_eq!(result.total(), 0);
    assert_eq!(result.to_display_string(), " (Total: 0)");
    assert_eq!(result.iter().count(), 0);
}

#[test]
fn total_is_widened() {
    let result = RollResult::new(vec![u32::MAX, u32::MAX, 7]);
    assert_eq!(result.total(), 2 * (u32::MAX as u64) + 7);
    assert_eq!(result.to_display_string(), "4294967295, 4294967295, 7 (Total: 8589934597)");
}

#[test]
fn iter_walks_values_in_order() {
    let result = RollResult::new(vec![5, 1, 4]);
    let seen: Vec<u32> = result.iter().copied().collect();
    assert_eq!(seen, vec![5, 1, 4]);
    let again: Vec<u32> = result.iter().copied().collect();
    assert_eq!(again, vec![5, 1, 4]);
}

#[test]
fn zero_or_many_numbers_fail() {
    assert_eq!(RollCmd::parse("abc"), Err("Invalid RollCmd: abc".to_string()));
    assert_eq!(RollCmd::parse("1d2d3"), Err("Invalid RollCmd: 1d2d3".to_string()));
    assert_eq!(RollCmd::parse(""), Err("Invalid RollCmd: ".to_string()));
    assert_eq!(RollCmd::parse("d"), Err("Invalid RollCmd: d".to_string()));
    assert!("abc".parse::<RollCmd>().is_err());
}

#[test]
fn stray_delimiters_are_lenient() {
    assert_eq!(RollCmd::parse("d6"), Ok(RollCmd::new(1, 6)));
    assert_eq!(RollCmd::parse("2d"), Ok(RollCmd::new(1, 2)));
    assert_eq!(RollCmd::parse("2dxd6"), Ok(RollCmd::new(2, 6)));
    assert_eq!(RollCmd::parse("2ddd6"), Ok(RollCmd::new(2, 6)));
}

#[test]
fn pieces_read_as_unsigned_integers() {
    assert_eq!(RollCmd::parse("+3d+4"), Ok(RollCmd::new(3, 4)));
    assert_eq!(RollCmd::parse("007d010"), Ok(RollCmd::new(7, 10)));
    assert_eq!(RollCmd::parse("-3d4"), Ok(RollCmd::new(1, 4)));
    assert_eq!(RollCmd::parse("4294967296d6"), Ok(RollCmd::new(1, 6)));
    assert_eq!(RollCmd::parse(" 2d6"), Ok(RollCmd::new(1, 6)));
}

#[test]
fn zero_counts_pass_through() {
    let cmd = RollCmd::parse("0d6").unwrap();
    assert_eq!(cmd, RollCmd::new(0, 6));
    let result = cmd.result(|max| max);
    assert!(result.values().is_empty());
    assert_eq!(RollCmd::parse("3d0"), Ok(RollCmd::new(3, 0)));
}

#[test]
fn piece_parsing_matches_std() {
    let samples = ["", "+", "-", "0", "+0", "12", "+12", "++1", "1+", "4294967295", "4294967296", "99999999999", "1a", "\u{663}"];
    for s in samples.iter() {
        let len = s.chars().count();
        assert_eq!(parse_piece(s, 0, len), s.parse::<u32>().ok(), "piece {:?}", s);
    }
    assert_eq!(parse_piece("x12y", 1, 3), Some(12));
}

#[test]
fn decimal_writes_numbers() {
    assert_eq!(decimal_string(0), "0");
    assert_eq!(decimal_string(9), "9");
    assert_eq!(decimal_string(10), "10");
    assert_eq!(decimal_string(1234567890), "1234567890");
    assert_eq!(decimal_string(u64::MAX), u64::MAX.to_string());
}

#[test]
fn batch_keeps_valid_tokens_in_order() {
    let tokens: Vec<String> = ["2d6", "abc", "6", "1d2d3", "3d4"].iter().map(|s| s.to_string()).collect();
    let cmds = parse_all(&tokens);
    assert_eq!(cmds, vec![RollCmd::new(2, 6), RollCmd::new(1, 6), RollCmd::new(3, 4)]);
    let results = roll_all(&tokens, |max| max);
    let lines: Vec<String> = results.iter().map(|r| r.to_display_string()).collect();
    assert_eq!(lines, vec!["6, 6 (Total: 12)", "6 (Total: 6)", "4, 4, 4 (Total: 12)"]);
}

#[test]
fn batch_shares_one_source_of_numbers() {
    let tokens: Vec<String> = ["2d6", "x", "3d6"].iter().map(|s| s.to_string()).collect();
    let mut next = 0;
    let results = roll_all(&tokens, |_max| {
        next += 1;
        next
    });
    assert_eq!(results.len(), 2);
    assert_eq!(results[0].values(), &[1, 2]);
    assert_eq!(results[1].values(), &[3, 4, 5]);
}

#[test]
fn repeated_rolls_keep_no_state() {
    let cmd = RollCmd::new(2, 6);
    let mut next = 0;
    let first = cmd.result(|_max| {
        next += 1;
        next
    });
    let second = cmd.result(|_max| {
        next += 1;
        next
    });
    assert_eq!(first.values(), &[1, 2]);
    assert_eq!(second.values(), &[3, 4]);
    assert_eq!(cmd, RollCmd::new(2, 6));
}

#[test]
fn each_die_gets_the_sides() {
    let cmd = RollCmd::new(3, 12);
    let mut asked = Vec::new();
    let result = cmd.result(|max| {
        asked.push(max);
        1
    });
    assert_eq!(asked, vec![12, 12, 12]);
    assert_eq!(result.values(), &[1, 1, 1]);
}
