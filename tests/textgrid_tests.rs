use textgrid::{
    BinaryGrid, BinaryInterval, BinaryPoint, BinaryTier, HISTORY_CAPACITY, Interval, Point, TextGrid, TextGridError,
    Tier, TierType, Time, decode_binary, encode_binary, extract_quoted_value, extract_quoted_value_short,
    parse_textgrid, validate_textgrid, write_long_format, write_short_format, write_textgrid,
};

fn t(s: &str) -> Time {
    Time::parse(s.as_bytes()).unwrap()
}

fn text_of(time: &Time) -> String {
    let mut out = Vec::new();
    time.write_text(&mut out);
    String::from_utf8(out).unwrap()
}

fn iv(a: &str, b: &str, text: &str) -> Interval {
    Interval { xmin: t(a), xmax: t(b), text: text.to_string() }
}

fn interval_tier(name: &str, a: &str, b: &str, intervals: Vec<Interval>) -> Tier {
    Tier { name: name.to_string(), tier_type: TierType::IntervalTier, xmin: t(a), xmax: t(b), intervals, points: vec![] }
}

fn point_tier(name: &str, a: &str, b: &str, points: Vec<Point>) -> Tier {
    Tier { name: name.to_string(), tier_type: TierType::PointTier, xmin: t(a), xmax: t(b), intervals: vec![], points }
}

fn same_interval(a: &Interval, b: &Interval) -> bool {
    a.xmin == b.xmin && a.xmax == b.xmax && a.text == b.text
}

fn same_tier(a: &Tier, b: &Tier) -> bool {
    a.name == b.name
        && a.tier_type == b.tier_type
        && a.xmin == b.xmin
        && a.xmax == b.xmax
        && a.intervals.len() == b.intervals.len()
        && a.points.len() == b.points.len()
        && a.intervals.iter().zip(b.intervals.iter()).all(|(x, y)| same_interval(x, y))
        && a.points.iter().zip(b.points.iter()).all(|(x, y)| x.time == y.time && x.mark == y.mark)
}

fn same_doc(a: &TextGrid, b: &TextGrid) -> bool {
    a.xmin == b.xmin
        && a.xmax == b.xmax
        && a.tiers.len() == b.tiers.len()
        && a.tiers.iter().zip(b.tiers.iter()).all(|(x, y)| same_tier(x, y))
}

fn words_doc() -> TextGrid {
    let mut tg = TextGrid::new(t("0"), t("2.53")).unwrap();
    tg.add_tier(interval_tier("words", "0", "2.53", vec![iv("0", "1.125", "Hello"), iv("1.125", "2.53", "World")]))
        .unwrap();
    tg
}

// Times travel through the binary format as IEEE-754 doubles.
fn to_bits(time: &Time) -> u64 {
    text_of(time).parse::<f64>().unwrap().to_bits()
}

fn from_bits(bits: u64) -> Time {
    t(&format!("{}", f64::from_bits(bits)))
}

fn to_binary_grid(tg: &TextGrid) -> BinaryGrid {
    BinaryGrid {
        xmin: to_bits(&tg.xmin),
        xmax: to_bits(&tg.xmax),
        tiers: tg
            .tiers
            .iter()
            .map(|tier| BinaryTier {
                name: tier.name.clone(),
                tier_type: tier.tier_type,
                xmin: to_bits(&tier.xmin),
                xmax: to_bits(&tier.xmax),
                intervals: tier
                    .intervals
                    .iter()
                    .map(|i| BinaryInterval { xmin: to_bits(&i.xmin), xmax: to_bits(&i.xmax), text: i.text.clone() })
                    .collect(),
                points: tier.points.iter().map(|p| BinaryPoint { time: to_bits(&p.time), mark: p.mark.clone() }).collect(),
            })
            .collect(),
    }
}

fn from_binary_grid(g: &BinaryGrid) -> TextGrid {
    let tiers = g
        .tiers
        .iter()
        .map(|tier| Tier {
            name: tier.name.clone(),
            tier_type: tier.tier_type,
            xmin: from_bits(tier.xmin),
            xmax: from_bits(tier.xmax),
            intervals: tier
                .intervals
                .iter()
                .map(|i| Interval { xmin: from_bits(i.xmin), xmax: from_bits(i.xmax), text: i.text.clone() })
                .collect(),
            points: tier.points.iter().map(|p| Point { time: from_bits(p.time), mark: p.mark.clone() }).collect(),
        })
        .collect();
    TextGrid::new(from_bits(g.xmin), from_bits(g.xmax)).unwrap().with_tiers(tiers)
}

#[test]
fn test_undo_redo() {
    let mut textgrid = TextGrid::new(t("0.0"), t("5.0")).unwrap();
    let tier = Tier {
        name: "test".to_string(),
        tier_type: TierType::IntervalTier,
        xmin: t("0.0"),
        xmax: t("5.0"),
        intervals: vec![Interval { xmin: t("0.0"), xmax: t("5.0"), text: "test".to_string() }],
        points: vec![],
    };
    textgrid.add_tier(tier.clone()).unwrap();
    assert_eq!(textgrid.tiers.len(), 1);
    textgrid.undo().unwrap();
    assert_eq!(textgrid.tiers.len(), 0);
    textgrid.redo().unwrap();
    assert_eq!(textgrid.tiers.len(), 1);

    textgrid.tier_add_interval("test", Interval { xmin: t("2.0"), xmax: t("3.0"), text: "new".to_string() }).unwrap();
    assert_eq!(textgrid.get_tier("test").unwrap().intervals.len(), 2);
    textgrid.undo().unwrap();
    assert_eq!(textgrid.get_tier("test").unwrap().intervals.len(), 1);
}

#[test]
fn test_advanced_merge() {
    let mut textgrid = TextGrid::new(t("0.0"), t("5.0")).unwrap();
    textgrid
        .add_tier(Tier {
            name: "t1".to_string(),
            tier_type: TierType::IntervalTier,
            xmin: t("0.0"),
            xmax: t("5.0"),
            intervals: vec![Interval { xmin: t("0.0"), xmax: t("2.0"), text: "a".to_string() }],
            points: vec![],
        })
        .unwrap();
    textgrid
        .add_tier(Tier {
            name: "t2".to_string(),
            tier_type: TierType::IntervalTier,
            xmin: t("0.0"),
            xmax: t("5.0"),
            intervals: vec![Interval { xmin: t("1.0"), xmax: t("3.0"), text: "b".to_string() }],
            points: vec![],
        })
        .unwrap();
    textgrid
        .merge_tiers_with_strategy("t1", "t2", "merged".to_string(), |a: &Interval, b: &Interval| {
            Some(Interval { xmin: a.xmin, xmax: a.xmax.max(&b.xmax), text: format!("{}-{}", a.text, b.text) })
        })
        .unwrap();
    let merged = textgrid.get_tier("merged").unwrap();
    assert_eq!(merged.intervals[0].text, "a-b");
}

#[test]
fn test_query() {
    let mut textgrid = TextGrid::new(t("0.0"), t("5.0")).unwrap();
    textgrid
        .add_tier(Tier {
            name: "test".to_string(),
            tier_type: TierType::IntervalTier,
            xmin: t("0.0"),
            xmax: t("5.0"),
            intervals: vec![Interval { xmin: t("0.0"), xmax: t("2.0"), text: "hello".to_string() }],
            points: vec![],
        })
        .unwrap();
    let results = textgrid.query_intervals_by_text("hello");
    assert_eq!(results.len(), 1);
    assert_eq!(results[0].1[0].text, "hello");
}

#[test]
fn test_binary() {
    let mut textgrid = TextGrid::new(t("0.0"), t("5.0")).unwrap();
    textgrid
        .add_tier(Tier {
            name: "test".to_string(),
            tier_type: TierType::IntervalTier,
            xmin: t("0.0"),
            xmax: t("5.0"),
            intervals: vec![Interval { xmin: t("0.0"), xmax: t("2.0"), text: "hello".to_string() }],
            points: vec![],
        })
        .unwrap();
    let bytes = encode_binary(&to_binary_grid(&textgrid)).unwrap();
    let loaded = from_binary_grid(&decode_binary(&bytes).unwrap());
    assert_eq!(loaded.tiers[0].intervals[0].text, "hello");
}

#[test]
fn time_text_forms() {
    assert_eq!(text_of(&t("2.53")), "2.53");
    assert_eq!(text_of(&t("-0.005")), "-0.005");
    assert_eq!(text_of(&t("1.50")), "1.50");
    assert_eq!(text_of(&t("007")), "7");
    assert_eq!(text_of(&Time::from_seconds(-3)), "-3");
    assert_eq!(text_of(&Time::new(i64::MIN, 0).unwrap()), "-9223372036854775808");
    assert!(Time::parse(b"-9223372036854775808").is_some());
    assert!(Time::parse(b"9223372036854775808").is_none());
    assert!(Time::parse(b"1.2.3").is_none());
    assert!(Time::parse(b".").is_none());
    assert!(Time::parse(b"").is_none());
    assert!(Time::parse(b"-").is_none());
    assert!(Time::parse(b"0.1234567890123456789").is_none());
    assert!(Time::new(1, 19).is_none());
}

#[test]
fn time_order_is_numeric() {
    assert!(t("1.5").same(&t("1.50")));
    assert!(t("1.5") != t("1.50"));
    assert!(t("-1").lt(&t("0.5")));
    assert!(t("2.53").le(&t("2.53")));
    assert!(!t("2.53").lt(&t("2.5")));
    assert_eq!(text_of(&t("1.25").max(&t("1.3"))), "1.3");
}

#[test]
fn interval_split_bounds() {
    let x = iv("0", "5", "x");
    let (a, b) = x.split(t("2.0")).unwrap();
    assert!(a.xmin.same(&t("0")) && a.xmax.same(&t("2")) && a.text == "x");
    assert!(b.xmin.same(&t("2")) && b.xmax.same(&t("5")) && b.text == "x");
    assert!(matches!(x.split(t("0")), Err(TextGridError::InvalidRange(_))));
    assert!(matches!(x.split(t("5")), Err(TextGridError::InvalidRange(_))));
}

#[test]
fn split_then_merge_restores_interval() {
    let mut tier = interval_tier("w", "0", "5", vec![iv("0", "5", "x")]);
    tier.split_interval(0, t("2.0")).unwrap();
    assert_eq!(tier.intervals.len(), 2);
    assert!(tier.intervals[0].xmax.same(&t("2")) && tier.intervals[1].xmin.same(&t("2")));
    assert_eq!(tier.intervals[1].text, "x");
    let before = tier.merge_intervals().unwrap();
    assert_eq!(before.len(), 2);
    assert_eq!(tier.intervals.len(), 1);
    assert!(same_interval(&tier.intervals[0], &iv("0", "5", "x")));
}

#[test]
fn tier_edit_errors() {
    let mut words = interval_tier("w", "0", "5", vec![]);
    let mut marks = point_tier("p", "0", "5", vec![]);
    assert!(matches!(words.add_point(Point { time: t("1"), mark: "m".into() }), Err(TextGridError::KindMismatch(_))));
    assert!(matches!(marks.add_interval(iv("0", "1", "a")), Err(TextGridError::KindMismatch(_))));
    assert!(matches!(words.add_interval(iv("4", "6", "a")), Err(TextGridError::OutOfBounds(_))));
    assert!(matches!(marks.add_point(Point { time: t("5.1"), mark: "m".into() }), Err(TextGridError::OutOfBounds(_))));
    assert!(matches!(words.remove_interval(0), Err(TextGridError::IndexOutOfRange(_))));
    assert!(matches!(marks.remove_point(3), Err(TextGridError::IndexOutOfRange(_))));
    assert!(matches!(words.split_interval(0, t("1")), Err(TextGridError::IndexOutOfRange(_))));
}

#[test]
fn tier_adds_keep_start_order() {
    let mut words = interval_tier("w", "0", "5", vec![]);
    words.add_interval(iv("2", "3", "b")).unwrap();
    words.add_interval(iv("0", "1", "a")).unwrap();
    words.add_interval(iv("2", "2.5", "c")).unwrap();
    let texts: Vec<&str> = words.intervals.iter().map(|i| i.text.as_str()).collect();
    assert_eq!(texts, vec!["a", "b", "c"]);
    let mut marks = point_tier("p", "0", "5", vec![]);
    marks.add_point(Point { time: t("3"), mark: "late".into() }).unwrap();
    marks.add_point(Point { time: t("1"), mark: "early".into() }).unwrap();
    assert_eq!(marks.points[0].mark, "early");
    assert_eq!(marks.remove_point(1).unwrap().mark, "late");
}

#[test]
fn tier_queries() {
    let words = interval_tier("w", "0", "3", vec![iv("0", "1", "one"), iv("1", "2", "two"), iv("2", "3", "three")]);
    assert_eq!(words.find_intervals_by_time(t("1")).len(), 2);
    assert_eq!(words.find_intervals_by_time(t("2.5")).len(), 1);
    assert_eq!(words.find_intervals_by_text("t").len(), 2);
    assert_eq!(words.find_intervals_by_text("").len(), 3);
    assert_eq!(words.find_points_by_time(t("1")).len(), 0);
    let marks = point_tier("p", "0", "3", vec![Point { time: t("1.0"), mark: "a".into() }]);
    assert_eq!(marks.find_points_by_time(t("1")).len(), 1);
    assert_eq!(marks.find_intervals_by_time(t("1")).len(), 0);
}

#[test]
fn validator_overlap_then_fixed() {
    let mut tg = TextGrid::new(t("0"), t("2")).unwrap();
    tg.add_tier(interval_tier("w", "0", "2", vec![iv("0", "1", "a"), iv("0.5", "2", "b")])).unwrap();
    assert!(matches!(validate_textgrid(&tg), Err(TextGridError::ValidationFailure(_))));
    let mut ok = TextGrid::new(t("0"), t("2")).unwrap();
    ok.add_tier(interval_tier("w", "0", "2", vec![iv("0", "1", "a"), iv("1", "2", "b")])).unwrap();
    assert!(validate_textgrid(&ok).is_ok());
}

#[test]
fn validator_rejects_gaps_and_stray_points() {
    let mut gap = TextGrid::new(t("0"), t("3")).unwrap();
    gap.add_tier(interval_tier("w", "0", "3", vec![iv("0", "1", "a"), iv("2", "3", "b")])).unwrap();
    assert!(validate_textgrid(&gap).is_err());
    let mut short = TextGrid::new(t("0"), t("3")).unwrap();
    short.add_tier(interval_tier("w", "0", "3", vec![iv("0", "1", "a")])).unwrap();
    assert!(validate_textgrid(&short).is_err());
    let empty = TextGrid::new(t("0"), t("3")).unwrap().with_tiers(vec![interval_tier("w", "0", "3", vec![])]);
    assert!(validate_textgrid(&empty).is_ok());
    let stray = TextGrid::new(t("0"), t("3"))
        .unwrap()
        .with_tiers(vec![point_tier("p", "0", "2", vec![Point { time: t("2.5"), mark: "m".into() }])]);
    assert!(validate_textgrid(&stray).is_err());
    let outside = TextGrid::new(t("0"), t("3")).unwrap().with_tiers(vec![interval_tier("w", "0", "4", vec![])]);
    assert!(validate_textgrid(&outside).is_err());
}

#[test]
fn new_rejects_reversed_bounds() {
    assert!(matches!(TextGrid::new(t("2"), t("1")), Err(TextGridError::InvalidRange(_))));
    assert!(matches!(TextGrid::new(t("1"), t("1.0")), Err(TextGridError::InvalidRange(_))));
}

#[test]
fn undo_redo_restores_each_state() {
    let mut tg = TextGrid::new(t("0"), t("4")).unwrap();
    let start = TextGrid::new(t("0"), t("4")).unwrap();
    tg.add_tier(interval_tier("w", "0", "4", vec![iv("0", "4", "x")])).unwrap();
    tg.add_tier(point_tier("p", "0", "4", vec![])).unwrap();
    tg.tier_split_interval("w", 0, t("1")).unwrap();
    tg.tier_add_point("p", Point { time: t("2"), mark: "m".into() }).unwrap();
    tg.rename_tier("p", "marks".to_string()).unwrap();
    tg.insert_silence("w", t("2"), t("3")).unwrap();
    tg.adjust_bounds(t("0"), t("6")).unwrap();
    tg.tier_merge_intervals("w").unwrap();
    tg.tier_remove_point("marks", 0).unwrap();
    tg.remove_tier(1).unwrap();
    let after = TextGrid::new(tg.xmin, tg.xmax).unwrap().with_tiers(tg.tiers.clone());
    for _ in 0..10 {
        tg.undo().unwrap();
    }
    assert!(same_doc(&tg, &start));
    assert!(matches!(tg.undo(), Err(TextGridError::NothingToUndo)));
    for _ in 0..10 {
        tg.redo().unwrap();
    }
    assert!(same_doc(&tg, &after));
    assert!(matches!(tg.redo(), Err(TextGridError::NothingToRedo)));
}

#[test]
fn new_edit_clears_redo() {
    let mut tg = TextGrid::new(t("0"), t("4")).unwrap();
    tg.add_tier(interval_tier("a", "0", "4", vec![])).unwrap();
    tg.undo().unwrap();
    tg.add_tier(interval_tier("b", "0", "4", vec![])).unwrap();
    assert!(matches!(tg.redo(), Err(TextGridError::NothingToRedo)));
}

#[test]
fn history_keeps_only_the_newest_edits() {
    let mut tg = TextGrid::new(t("0"), t("4")).unwrap();
    tg.add_tier(interval_tier("w", "0", "4", vec![])).unwrap();
    for i in 0..HISTORY_CAPACITY {
        let name = if i % 2 == 0 { "v" } else { "w" };
        let old = if i % 2 == 0 { "w" } else { "v" };
        tg.rename_tier(old, name.to_string()).unwrap();
    }
    let mut undone = 0;
    while tg.undo().is_ok() {
        undone += 1;
    }
    assert_eq!(undone, HISTORY_CAPACITY);
    assert_eq!(tg.tiers.len(), 1);
    assert_eq!(tg.tiers[0].name, "w");
}

#[test]
fn failed_edits_change_nothing() {
    let mut tg = TextGrid::new(t("0"), t("4")).unwrap();
    tg.add_tier(interval_tier("w", "0", "4", vec![iv("0", "4", "x")])).unwrap();
    assert!(matches!(tg.tier_add_interval("nope", iv("0", "1", "a")), Err(TextGridError::NotFound(_))));
    assert!(matches!(tg.tier_split_interval("w", 0, t("4")), Err(TextGridError::InvalidRange(_))));
    assert!(matches!(tg.add_tier(interval_tier("big", "0", "5", vec![])), Err(TextGridError::OutOfBounds(_))));
    assert!(matches!(tg.remove_tier(3), Err(TextGridError::IndexOutOfRange(_))));
    assert!(matches!(tg.rename_tier("nope", "x".into()), Err(TextGridError::NotFound(_))));
    assert!(matches!(tg.adjust_bounds(t("1"), t("4")), Err(TextGridError::InvalidRange(_))));
    assert!(matches!(tg.adjust_bounds(t("3"), t("3")), Err(TextGridError::InvalidRange(_))));
    assert!(matches!(tg.insert_silence("w", t("3"), t("2")), Err(TextGridError::InvalidRange(_))));
    assert!(matches!(tg.merge_tiers("w", "nope", "m".into()), Err(TextGridError::NotFound(_))));
    assert_eq!(tg.tiers.len(), 1);
    assert_eq!(tg.tiers[0].intervals.len(), 1);
    tg.undo().unwrap();
    assert!(matches!(tg.undo(), Err(TextGridError::NothingToUndo)));
}

#[test]
fn insert_silence_cuts_and_fills() {
    let mut tg = TextGrid::new(t("0"), t("4")).unwrap();
    tg.add_tier(interval_tier("w", "0", "4", vec![iv("0", "2", "a"), iv("2", "4", "b")])).unwrap();
    tg.insert_silence("w", t("1.5"), t("3")).unwrap();
    let w = tg.get_tier("w").unwrap();
    let got: Vec<(String, String, String)> =
        w.intervals.iter().map(|i| (text_of(&i.xmin), text_of(&i.xmax), i.text.clone())).collect();
    assert_eq!(
        got,
        vec![
            ("0".to_string(), "1.5".to_string(), "a".to_string()),
            ("1.5".to_string(), "3".to_string(), "".to_string()),
            ("3".to_string(), "4".to_string(), "b".to_string()),
        ]
    );
    assert!(validate_textgrid(&tg).is_ok());
    let mut marks = TextGrid::new(t("0"), t("4")).unwrap();
    marks.add_tier(point_tier("p", "0", "4", vec![])).unwrap();
    assert!(matches!(marks.insert_silence("p", t("1"), t("2")), Err(TextGridError::KindMismatch(_))));
}

#[test]
fn adjust_bounds_moves_every_tier() {
    let mut tg = TextGrid::new(t("0"), t("4")).unwrap();
    tg.add_tier(interval_tier("w", "0", "4", vec![iv("1", "2", "a")])).unwrap();
    tg.adjust_bounds(t("0.5"), t("3")).unwrap();
    assert!(tg.xmin.same(&t("0.5")) && tg.tiers[0].xmax.same(&t("3")));
    assert!(matches!(tg.adjust_bounds(t("1.5"), t("3")), Err(TextGridError::InvalidRange(_))));
    tg.undo().unwrap();
    assert!(tg.tiers[0].xmin.same(&t("0")) && tg.xmax.same(&t("4")));
}

#[test]
fn default_merge_of_tiers() {
    let mut tg = TextGrid::new(t("0"), t("5")).unwrap();
    tg.add_tier(interval_tier("a", "0", "5", vec![iv("0", "2", "x"), iv("3", "4", "y")])).unwrap();
    tg.add_tier(interval_tier("b", "0", "5", vec![iv("1", "3", ""), iv("3.5", "5", "z")])).unwrap();
    tg.merge_tiers("a", "b", "ab".to_string()).unwrap();
    let m = tg.get_tier("ab").unwrap();
    let got: Vec<(String, String, String)> =
        m.intervals.iter().map(|i| (text_of(&i.xmin), text_of(&i.xmax), i.text.clone())).collect();
    assert_eq!(
        got,
        vec![
            ("0".to_string(), "3".to_string(), "x".to_string()),
            ("3".to_string(), "4".to_string(), "y".to_string()),
            ("3.5".to_string(), "5".to_string(), "z".to_string()),
        ]
    );
    let mut marks = TextGrid::new(t("0"), t("5")).unwrap();
    marks.add_tier(point_tier("p", "0", "5", vec![])).unwrap();
    marks.add_tier(interval_tier("a", "0", "5", vec![])).unwrap();
    assert!(matches!(marks.merge_tiers("p", "a", "m".into()), Err(TextGridError::KindMismatch(_))));
}

#[test]
fn document_queries() {
    let mut tg = TextGrid::new(t("0"), t("2")).unwrap();
    tg.add_tier(interval_tier("w", "0", "2", vec![iv("0", "1", "hello"), iv("1", "2", "world")])).unwrap();
    tg.add_tier(point_tier("p", "0", "2", vec![Point { time: t("1"), mark: "m".into() }])).unwrap();
    let by_time = tg.query_intervals_by_time(t("1"));
    assert_eq!(by_time.len(), 1);
    assert_eq!(by_time[0].0, 0);
    assert_eq!(by_time[0].1.len(), 2);
    let points = tg.query_points_by_time(t("1.0"));
    assert_eq!(points.len(), 1);
    assert_eq!(points[0].0, 1);
    assert_eq!(tg.query_intervals_by_text("zzz").len(), 0);
}

#[test]
fn scenario_long_and_short_round_trip() {
    let tg = words_doc();
    let long = write_textgrid(&tg, false).unwrap();
    let short = write_textgrid(&tg, true).unwrap();
    assert!(same_doc(&parse_textgrid(&long).unwrap(), &tg));
    assert!(same_doc(&parse_textgrid(&short).unwrap(), &tg));
    let long_text = String::from_utf8(long).unwrap();
    assert!(long_text.starts_with("File type = \"ooTextFile\"\nObject class = \"TextGrid\"\nxmin = 0\nxmax = 2.53\n"));
    assert!(long_text.contains("            text = \"Hello\"\n"));
    let short_text = String::from_utf8(short).unwrap();
    assert!(short_text.contains("\n\"IntervalTier\"\n\"words\"\n0\n2.53\n2\n0\n1.125\n\"Hello\"\n"));
}

#[test]
fn scenario_binary_keeps_text() {
    let tg = words_doc();
    let bytes = encode_binary(&to_binary_grid(&tg)).unwrap();
    assert_eq!(&bytes[0..12], b"ooBinaryFile");
    let back = from_binary_grid(&decode_binary(&bytes).unwrap());
    assert_eq!(back.tiers[0].intervals[0].text, "Hello");
    assert!(same_doc(&back, &tg));
}

#[test]
fn text_round_trip_with_points() {
    let mut tg = TextGrid::new(t("-1.5"), t("10")).unwrap();
    tg.add_tier(point_tier("events", "0", "10", vec![Point { time: t("0.25"), mark: "a \"q\" é".into() }]))
        .unwrap();
    tg.add_tier(interval_tier("w", "-1.5", "10", vec![iv("-1.5", "10", "")])).unwrap();
    for bytes in [write_long_format(&tg), write_short_format(&tg)] {
        assert!(same_doc(&parse_textgrid(&bytes).unwrap(), &tg));
    }
}

#[test]
fn write_refuses_invalid_documents() {
    let mut tg = TextGrid::new(t("0"), t("2")).unwrap();
    tg.add_tier(interval_tier("w", "0", "2", vec![iv("0", "1", "a")])).unwrap();
    assert!(matches!(write_textgrid(&tg, false), Err(TextGridError::ValidationFailure(_))));
}

#[test]
fn parse_errors_are_malformed() {
    assert!(matches!(parse_textgrid(b""), Err(TextGridError::MalformedInput(_))));
    assert!(matches!(parse_textgrid(b"File type = \"ooTextFile\"\nObject class = \"Other\"\n"), Err(TextGridError::MalformedInput(_))));
    let truncated = b"File type = \"ooTextFile\"\nObject class = \"TextGrid\"\nxmin = 0\nxmax = 1\ntiers? <exists>\nsize = 1\nitem []:\n";
    assert!(matches!(parse_textgrid(truncated), Err(TextGridError::MalformedInput(_))));
    let bad_number = b"File type = \"ooTextFile\"\nObject class = \"TextGrid\"\n0\nabc\n0\n";
    assert!(matches!(parse_textgrid(bad_number), Err(TextGridError::MalformedInput(_))));
    let bad_class = b"File type = \"ooTextFile\"\nObject class = \"TextGrid\"\n0\n1\n1\n\"Other\"\n\"n\"\n0\n1\n0\n";
    assert!(matches!(parse_textgrid(bad_class), Err(TextGridError::MalformedInput(_))));
    let reversed = b"File type = \"ooTextFile\"\nObject class = \"TextGrid\"\n1\n0\n0\n";
    assert!(matches!(parse_textgrid(reversed), Err(TextGridError::InvalidRange(_))));
    let empty_ok = b"File type = \"ooTextFile\"\nObject class = \"TextGrid\"\n0\n1\n0\n";
    assert_eq!(parse_textgrid(empty_ok).unwrap().tiers.len(), 0);
}

#[test]
fn binary_errors_are_malformed() {
    assert!(matches!(decode_binary(b"ooBinaryFilX"), Err(TextGridError::MalformedInput(_))));
    let tg = words_doc();
    let bytes = encode_binary(&to_binary_grid(&tg)).unwrap();
    assert!(matches!(decode_binary(&bytes[..bytes.len() - 1]), Err(TextGridError::MalformedInput(_))));
    let mut wrong_class = bytes.clone();
    wrong_class[14] = b'X';
    assert!(matches!(decode_binary(&wrong_class), Err(TextGridError::MalformedInput(_))));
    let mut bad_utf8 = bytes.clone();
    let last = bad_utf8.len() - 1;
    bad_utf8[last] = 0xff;
    assert!(matches!(decode_binary(&bad_utf8), Err(TextGridError::MalformedInput(_))));
}

#[test]
fn binary_layout_is_little_endian() {
    let g = BinaryGrid {
        xmin: 0,
        xmax: 0x0102030405060708,
        tiers: vec![BinaryTier {
            name: "n".into(),
            tier_type: TierType::PointTier,
            xmin: 1,
            xmax: 2,
            intervals: vec![],
            points: vec![BinaryPoint { time: 3, mark: "m".into() }],
        }],
    };
    let bytes = encode_binary(&g).unwrap();
    let mut want: Vec<u8> = b"ooBinaryFile".to_vec();
    want.extend_from_slice(&[8, 0]);
    want.extend_from_slice(b"TextGrid");
    want.extend_from_slice(&0u64.to_le_bytes());
    want.extend_from_slice(&0x0102030405060708u64.to_le_bytes());
    want.extend_from_slice(&1u32.to_le_bytes());
    want.extend_from_slice(&[8, 0]);
    want.extend_from_slice(b"TextTier");
    want.extend_from_slice(&[1, 0]);
    want.extend_from_slice(b"n");
    want.extend_from_slice(&1u64.to_le_bytes());
    want.extend_from_slice(&2u64.to_le_bytes());
    want.extend_from_slice(&1u32.to_le_bytes());
    want.extend_from_slice(&3u64.to_le_bytes());
    want.extend_from_slice(&[1, 0]);
    want.extend_from_slice(b"m");
    assert_eq!(bytes, want);
    let back = decode_binary(&bytes).unwrap();
    assert_eq!(back.xmax, 0x0102030405060708);
    assert_eq!(back.tiers[0].points[0].mark, "m");
    let long = "x".repeat(70000);
    let too_long = BinaryGrid { xmin: 0, xmax: 1, tiers: vec![BinaryTier { name: long, tier_type: TierType::IntervalTier, xmin: 0, xmax: 1, intervals: vec![], points: vec![] }] };
    assert!(matches!(encode_binary(&too_long), Err(TextGridError::InvalidRange(_))));
}

#[test]
fn quoted_values() {
    let line = b"        name = \"words\"   ";
    assert_eq!(extract_quoted_value(Some(&line[..]), b"name = ").unwrap(), "words");
    assert!(matches!(extract_quoted_value(Some(&b"name = words"[..]), b"name = "), Err(TextGridError::MalformedInput(_))));
    assert!(matches!(extract_quoted_value(Some(&b"text = \"a\""[..]), b"name = "), Err(TextGridError::MalformedInput(_))));
    assert!(extract_quoted_value(None, b"name = ").is_err());
    assert_eq!(extract_quoted_value_short(Some(&b"  \"a\"b\"  "[..])).unwrap(), "a\"b");
    assert_eq!(extract_quoted_value_short(Some(&b"\"\""[..])).unwrap(), "");
    assert!(extract_quoted_value_short(Some(&b"\""[..])).is_err());
}

#[test]
fn merge_intervals_sorts_first() {
    let mut words = interval_tier("w", "0", "3", vec![iv("1", "2", "a"), iv("0", "1", "a"), iv("2", "3", "b")]);
    let before = words.merge_intervals().unwrap();
    assert_eq!(before[0].text, "a");
    assert!(before[0].xmin.same(&t("1")));
    assert_eq!(words.intervals.len(), 2);
    assert!(same_interval(&words.intervals[0], &iv("0", "2", "a")));
    assert!(same_interval(&words.intervals[1], &iv("2", "3", "b")));
}

#[test]
fn undo_redo_of_tier_merge() {
    let mut tg = TextGrid::new(t("0"), t("5")).unwrap();
    tg.add_tier(interval_tier("a", "0", "5", vec![iv("0", "2", "x")])).unwrap();
    tg.add_tier(interval_tier("b", "0", "5", vec![iv("1", "3", "x")])).unwrap();
    tg.merge_tiers("a", "b", "ab".to_string()).unwrap();
    assert_eq!(tg.tiers.len(), 3);
    assert!(same_interval(&tg.get_tier("ab").unwrap().intervals[0], &iv("0", "3", "x")));
    tg.undo().unwrap();
    assert_eq!(tg.tiers.len(), 2);
    tg.redo().unwrap();
    assert_eq!(tg.tiers.len(), 3);
    assert!(same_interval(&tg.tiers[2].intervals[0], &iv("0", "3", "x")));
}

#[test]
fn float_text_forms() {
    assert_eq!(text_of(&t("1.")), "1");
    assert_eq!(text_of(&t(".5")), "0.5");
    assert_eq!(text_of(&t("+2.25")), "2.25");
    assert_eq!(text_of(&t("1e-05")), "0.00001");
    assert_eq!(text_of(&t("1.5E3")), "1500");
    assert_eq!(text_of(&t("-2.5e+1")), "-25");
    assert_eq!(text_of(&t("125e-2")), "1.25");
    assert_eq!(text_of(&t("0e400")), "0");
    assert!(Time::parse(b"1e20").is_none());
    assert!(Time::parse(b"1e-19").is_none());
    assert!(Time::parse(b"1e").is_none());
    assert!(Time::parse(b"e5").is_none());
    assert!(Time::parse(b"+-1").is_none());
    assert!(Time::parse(b"1e5.0").is_none());
    assert!(Time::parse(b"inf").is_none());
}

#[test]
fn header_lines_are_exact() {
    let body = "Object class = \"TextGrid\"\n0\n1\n0\n";
    let ok = format!("File type = \"ooTextFile\"\r\n{}", body);
    assert!(parse_textgrid(ok.as_bytes()).is_ok());
    let blank = format!(" File type = \"ooTextFile\"\n{}", body);
    assert!(matches!(parse_textgrid(blank.as_bytes()), Err(TextGridError::MalformedInput(_))));
    let trailing = format!("File type = \"ooTextFile\" \n{}", body);
    assert!(matches!(parse_textgrid(trailing.as_bytes()), Err(TextGridError::MalformedInput(_))));
}

#[test]
fn unicode_blanks_are_trimmed() {
    let line = "\u{a0}\u{3000}name = \"x\"\u{2003}\t".as_bytes();
    assert_eq!(extract_quoted_value(Some(line), b"name = ").unwrap(), "x");
    assert_eq!(extract_quoted_value_short(Some("\u{85}\"y\"\u{205f}".as_bytes())).unwrap(), "y");
    let text = "File type = \"ooTextFile\"\nObject class = \"TextGrid\"\n\u{a0}0\n1\u{2028}\n0\n";
    let tg = parse_textgrid(text.as_bytes()).unwrap();
    assert!(tg.xmax.same(&t("1")));
}

#[test]
fn error_messages_name_line_and_prefix() {
    let text = b"File type = \"ooTextFile\"\nObject class = \"TextGrid\"\nxmin = 0\nxmax = oops\n";
    match parse_textgrid(text) {
        Err(TextGridError::MalformedInput(m)) => {
            assert!(m.contains("xmax = "));
            assert!(m.contains("xmax = oops"));
        },
        _ => panic!("expected malformed input"),
    }
}

#[test]
fn tier_names_stay_unique() {
    let mut tg = TextGrid::new(t("0"), t("4")).unwrap();
    tg.add_tier(interval_tier("a", "0", "4", vec![])).unwrap();
    tg.add_tier(interval_tier("b", "0", "4", vec![])).unwrap();
    assert!(matches!(tg.add_tier(interval_tier("a", "0", "4", vec![])), Err(TextGridError::ValidationFailure(_))));
    assert!(matches!(tg.rename_tier("a", "b".into()), Err(TextGridError::ValidationFailure(_))));
    assert!(matches!(tg.merge_tiers("a", "b", "a".into()), Err(TextGridError::ValidationFailure(_))));
    assert_eq!(tg.tiers.len(), 2);
    tg.rename_tier("a", "c".into()).unwrap();
    tg.undo().unwrap();
    tg.redo().unwrap();
    assert_eq!(tg.tiers[0].name, "c");
}

#[test]
fn tier_edit_error_kinds() {
    let mut tg = TextGrid::new(t("0"), t("4")).unwrap();
    tg.add_tier(interval_tier("w", "0", "4", vec![iv("0", "4", "x")])).unwrap();
    tg.add_tier(point_tier("p", "0", "4", vec![])).unwrap();
    assert!(matches!(tg.tier_split_interval("w", 5, t("1")), Err(TextGridError::IndexOutOfRange(_))));
    assert!(matches!(tg.tier_remove_interval("w", 1), Err(TextGridError::IndexOutOfRange(_))));
    assert!(matches!(tg.tier_add_interval("p", iv("0", "1", "a")), Err(TextGridError::KindMismatch(_))));
    assert!(matches!(tg.tier_add_interval("w", iv("3", "5", "a")), Err(TextGridError::OutOfBounds(_))));
    assert!(matches!(tg.tier_add_point("w", Point { time: t("1"), mark: "m".into() }), Err(TextGridError::KindMismatch(_))));
    assert!(matches!(tg.tier_remove_point("p", 0), Err(TextGridError::IndexOutOfRange(_))));
    assert!(matches!(tg.merge_tiers("w", "p", "m".into()), Err(TextGridError::KindMismatch(_))));
}
