use firetrail::json::{parse_json, JsonValue};
use firetrail::lifepaths::{
    pt_pts, Leads, Lifepath, LifepathLookup, Note, Requirement, Restriction, Setting, StatBoost,
    StatBoostType,
};
use firetrail::lp_parser::{
    encode_leads, encode_stat_boost, extract_order, parse_settings, read_lifepath,
    read_lifepath_list, read_setting, read_setting_value, unwrap_int, LPPError,
};
use firetrail::text::{format_list, split_text, trim_text};

fn strings(v: &[&str]) -> Vec<String> {
    v.iter().map(|s| s.to_string()).collect()
}

fn sample(skill_points: i64, trait_points: i64, general_points: i64) -> Lifepath {
    Lifepath::new(
        "Farmer".to_string(),
        7,
        2,
        StatBoost(1, StatBoostType::Physical),
        Leads::Nothing,
        skill_points,
        general_points,
        trait_points,
        strings(&["Farming", "Haggling"]),
        strings(&["Hard Worker"]),
        None,
        None,
        None,
    )
}

fn member(name: &str, order: Option<i64>) -> String {
    let order = match order {
        Some(o) => format!(",\"order\":{}", o),
        None => String::new(),
    };
    format!(
        "{{\"name\":\"{}\",\"data\":{{\"time\":1,\"resources\":1,\"skillPoints\":1,\"traitPoints\":1,\"generalPoints\":0,\"subtractStats\":false,\"statBoost\":\"\",\"leads\":\"\",\"skillList\":\"\",\"traitList\":\"\",\"restrictions\":\"\",\"requirements\":\"\",\"note\":\"\"{}}}}}",
        name, order
    )
}

const PEASANT: &str = "{\"items\":[{\"name\":\"Peasant\",\"data\":{\"time\":14,\"resources\":1,\"skillPoints\":2,\"traitPoints\":0,\"generalPoints\":0,\"subtractStats\":false,\"statBoost\":\"physical\",\"leads\":\"\",\"skillList\":\"Farming, Haggling\",\"traitList\":\"\",\"restrictions\":\"\",\"requirements\":\"\",\"note\":\"\"}}]}";

#[test]
fn stat_boost_encoding() {
    assert_eq!(encode_stat_boost(false, "physical"), StatBoost(1, StatBoostType::Physical));
    assert_eq!(encode_stat_boost(true, "mental"), StatBoost(-1, StatBoostType::Mental));
    assert_eq!(encode_stat_boost(false, "bogus"), StatBoost(0, StatBoostType::Neutral));
    assert_eq!(encode_stat_boost(true, "bogus"), StatBoost(0, StatBoostType::Neutral));
    assert_eq!(encode_stat_boost(false, "both"), StatBoost(1, StatBoostType::Both));
    assert_eq!(encode_stat_boost(true, "either"), StatBoost(-1, StatBoostType::Either));
}

#[test]
fn leads_encoding() {
    assert!(matches!(encode_leads(""), Leads::Nothing));
    assert!(matches!(encode_leads("Any"), Leads::Any));
    assert!(matches!(encode_leads("Any, Farmer"), Leads::Any));
    match encode_leads("A, B") {
        Leads::Listed(v) => assert_eq!(v, strings(&["A", "B"])),
        other => panic!("unexpected leads {:?}", other),
    }
}

#[test]
fn list_splitting_trims_and_drops_empty_tokens() {
    assert_eq!(split_text(""), Vec::<String>::new());
    assert_eq!(split_text("Farming, Haggling"), strings(&["Farming", "Haggling"]));
    assert_eq!(split_text(" a ,, b\t,"), strings(&["a", "b"]));
    assert_eq!(split_text("\u{3000}x\u{a0}"), strings(&["x"]));
}

#[test]
fn list_splitting_round_trips_through_join() {
    for input in ["Farming, Haggling", " a ,b,, c ", "", "single", " , "] {
        let tokens = split_text(input);
        let joined = format_list(&tokens);
        assert_eq!(split_text(&joined), tokens);
    }
    assert_eq!(format_list(&strings(&["a", "b", "c"])), "a, b, c");
}

#[test]
fn trim_removes_surrounding_whitespace() {
    assert_eq!(trim_text("  a b \n"), "a b");
    assert_eq!(trim_text(" \t "), "");
    assert_eq!(trim_text("\u{2003}word\u{2029}"), "word");
}

#[test]
fn setting_orders_members_by_rank() {
    let line = format!(
        "{{\"name\":\"Peasant Setting\",\"items\":[{},{},{},{},{}]}}",
        member("Three", Some(3)),
        member("FirstNone", None),
        member("One", Some(1)),
        member("SecondNone", None),
        member("Two", Some(2))
    );
    let mut lookup = LifepathLookup::new();
    let setting = read_setting(&mut lookup, &line).unwrap();
    assert_eq!(setting.name(), "Peasant Setting");
    assert_eq!(
        setting.lifepaths(),
        &strings(&["One", "Two", "Three", "FirstNone", "SecondNone"])
    );
    assert!(lookup.get_lifepath("Two", "Peasant Setting").is_some());
    assert!(lookup.get_lifepath("Two", "Other").is_none());
}

#[test]
fn member_without_order_ranks_last() {
    let v = parse_json(&member("X", None)).unwrap();
    assert_eq!(extract_order(&v), i64::MAX);
    let v = parse_json(&member("X", Some(-4))).unwrap();
    assert_eq!(extract_order(&v), -4);
}

#[test]
fn setting_stops_at_first_bad_member() {
    let line = format!(
        "{{\"name\":\"S\",\"items\":[{},{{\"name\":\"Bad\",\"data\":{{\"order\":2}}}}]}}",
        member("Good", Some(1))
    );
    let mut lookup = LifepathLookup::new();
    match read_setting(&mut lookup, &line) {
        Err(LPPError::KeyNotFound(k)) => assert_eq!(k, "time"),
        other => panic!("unexpected result {:?}", other.map(|s| s.name().clone())),
    }
    assert!(lookup.get_lifepath("Good", "S").is_some());
}

#[test]
fn setting_errors() {
    let mut lookup = LifepathLookup::new();
    assert!(matches!(read_setting(&mut lookup, "not json"), Err(LPPError::MalformedDocument)));
    assert!(matches!(read_setting(&mut lookup, "[1, 2]"), Err(LPPError::MalformedDocument)));
    match read_setting(&mut lookup, "{\"name\": 4, \"items\": []}") {
        Err(LPPError::WrongType(t, k)) => {
            assert_eq!(t, "String");
            assert_eq!(k, "name");
        }
        _ => panic!("expected a wrong type"),
    }
    let empty = read_setting(&mut lookup, "{\"name\": \"Empty\"}").unwrap();
    assert!(empty.lifepaths().is_empty());
}

#[test]
fn settings_from_lines() {
    let lines = vec![
        format!("{{\"name\":\"A\",\"items\":[{}]}}", member("P", None)),
        format!("{{\"name\":\"B\",\"items\":[{}]}}", member("P", None)),
    ];
    let mut lookup = LifepathLookup::new();
    let settings = parse_settings(&lines, &mut lookup).unwrap();
    assert_eq!(settings.len(), 2);
    assert!(lookup.get_lifepath("P", "A").is_some());
    assert!(lookup.get_lifepath("P", "B").is_some());
    assert_eq!(lookup.lifepaths().len(), 2);
}

#[test]
fn lookup_keeps_last_write() {
    let mut lookup = LifepathLookup::new();
    lookup.add_lifepaths(sample(1, 0, 0), "Peasant");
    lookup.add_lifepaths(sample(5, 0, 0), "Peasant");
    assert_eq!(lookup.get_lifepath("Farmer", "Peasant").unwrap().skill_points(), 5);
    assert_eq!(lookup.lifepaths().len(), 1);
    assert!(lookup.get_lifepath("Farmer", "City").is_none());
    assert!(lookup.get_lifepath("Baker", "Peasant").is_none());
}

#[test]
fn render_pluralization() {
    assert!(sample(1, 0, 0).render().contains("Skills: 1pt: Farming, Haggling\n"));
    assert!(sample(2, 0, 0).render().contains("Skills: 2pts: Farming, Haggling\n"));
    assert!(sample(2, 0, 0).render().contains("Traits: -\n"));
    assert!(sample(0, 1, 0).render().contains("Skills: 0pts: "));
    assert!(sample(0, 1, 0).render().contains("Traits: 1pt: Hard Worker\n"));
    assert_eq!(pt_pts(1), "pt");
    assert_eq!(pt_pts(0), "pts");
    assert_eq!(pt_pts(3), "pts");
}

#[test]
fn render_full_record() {
    let lp = Lifepath::new(
        "Village Sergeant".to_string(),
        6,
        -10,
        StatBoost(-1, StatBoostType::Either),
        Leads::Listed(strings(&["Soldier", "Guard"])),
        4,
        2,
        1,
        strings(&["Soldiering"]),
        strings(&["Tough"]),
        Some(vec![Requirement::Custom("Soldier".to_string())]),
        Some(vec![Restriction::Custom("Men only".to_string())]),
        Some(vec![Note::Custom("Rare".to_string())]),
    );
    assert_eq!(
        lp.render(),
        "Village Sergeant   6 yrs  -10 res  -1M/P  Soldier, Guard\n\
         Skills: 2pts: General; 4pts: Soldiering\n\
         Traits: 1pt: Tough\n\
         Requirements: Soldier\n\
         Restrictions: Men only\n\
         Notes: Rare\n"
    );
}

#[test]
fn render_stat_boosts_and_leads() {
    assert_eq!(StatBoost(1, StatBoostType::Physical).render(), "+1P");
    assert_eq!(StatBoost(-1, StatBoostType::Mental).render(), "-1M");
    assert_eq!(StatBoost(1, StatBoostType::Both).render(), "+1M,P");
    assert_eq!(StatBoost(0, StatBoostType::Neutral).render(), "-");
    assert_eq!(Leads::Any.render(), "Any");
    assert_eq!(Leads::Nothing.render(), "");
}

#[test]
fn peasant_document_round_trip() {
    let lps = read_lifepath_list(PEASANT).unwrap();
    assert_eq!(lps.len(), 1);
    let lp = &lps[0];
    assert_eq!(lp.name(), "Peasant");
    assert_eq!(lp.time(), 14);
    assert_eq!(lp.resources(), 1);
    assert_eq!(lp.stat_boost(), StatBoost(1, StatBoostType::Physical));
    assert!(matches!(lp.leads(), Leads::Nothing));
    assert_eq!(lp.skill_list(), &strings(&["Farming", "Haggling"]));
    assert_eq!(lp.trait_points(), 0);
    assert!(lp.requirements().is_none());
    assert!(lp.restrictions().is_none());
    assert!(lp.note().is_none());
    let text = lp.render();
    assert_eq!(
        text,
        "Peasant   14 yrs  1 res  +1P  \nSkills: 2pts: Farming, Haggling\nTraits: -\n"
    );
    assert!(!text.contains("Requirements"));
    assert!(!text.contains("Restrictions"));
    assert!(!text.contains("Notes"));
}

#[test]
fn annotations_present_only_for_text() {
    let doc = PEASANT.replace("\"note\":\"\"", "\"note\":\"Born here\"");
    let lps = read_lifepath_list(&doc).unwrap();
    let lp = &lps[0];
    assert!(lp.requirements().is_none());
    match lp.note() {
        Some(v) => {
            assert_eq!(v.len(), 1);
            assert!(matches!(&v[0], Note::Custom(s) if s == "Born here"));
        }
        None => panic!("expected a note"),
    }
    assert!(lp.render().ends_with("Notes: Born here\n"));
}

#[test]
fn field_errors() {
    let wrong_int = PEASANT.replace("\"time\":14", "\"time\":\"14\"");
    match read_lifepath_list(&wrong_int) {
        Err(LPPError::WrongType(t, k)) => {
            assert_eq!(t, "int");
            assert_eq!(k, "time");
        }
        _ => panic!("expected a wrong type"),
    }
    let wrong_bool = PEASANT.replace("\"subtractStats\":false", "\"subtractStats\":0");
    match read_lifepath_list(&wrong_bool) {
        Err(LPPError::WrongType(t, k)) => {
            assert_eq!(t, "bool");
            assert_eq!(k, "subtractStats");
        }
        _ => panic!("expected a wrong type"),
    }
    let missing = PEASANT.replace("\"note\":\"\"", "\"notes\":\"\"");
    match read_lifepath_list(&missing) {
        Err(e) => assert_eq!(e.message(), "Key not found: note"),
        Ok(_) => panic!("expected a missing key"),
    }
    let float = PEASANT.replace("\"resources\":1", "\"resources\":1.5");
    assert!(matches!(read_lifepath_list(&float), Err(LPPError::WrongType(_, _))));
    assert!(matches!(read_lifepath_list("{\"x\": 1}"), Err(LPPError::KeyNotFound(_))));
    assert!(matches!(read_lifepath_list("{"), Err(LPPError::MalformedDocument)));
    assert_eq!(LPPError::MalformedDocument.message(), "Unknown Error");
}

#[test]
fn member_shape_errors() {
    let v = parse_json("{\"name\":\"X\",\"data\":3}").unwrap();
    match read_lifepath(&v) {
        Err(e) => assert_eq!(e.message(), "Wrong type, expected object for data"),
        Ok(_) => panic!("expected an error"),
    }
    let v = parse_json("{\"name\":\"X\"}").unwrap();
    assert!(matches!(read_lifepath(&v), Err(LPPError::KeyNotFound(k)) if k == "data"));
    let v = parse_json("\"X\"").unwrap();
    assert!(matches!(read_lifepath(&v), Err(LPPError::MalformedDocument)));
}

#[test]
fn null_integer_is_zero() {
    let v = parse_json("{\"time\": null, \"age\": 3}").unwrap();
    assert_eq!(unwrap_int(&v, "time").unwrap(), 0);
    assert_eq!(unwrap_int(&v, "age").unwrap(), 3);
    assert!(matches!(unwrap_int(&v, "none"), Err(LPPError::KeyNotFound(_))));
}

#[test]
fn parsed_values_keep_their_contents() {
    let v = parse_json("{\"a\": [1, \"two\", true, null, 2.5], \"b\": {\"c\": -7}}").unwrap();
    match v.get("a") {
        Some(JsonValue::Array(items)) => {
            assert_eq!(items.len(), 5);
            assert!(matches!(items[0], JsonValue::Int(1)));
            assert!(matches!(&items[1], JsonValue::Str(s) if s == "two"));
            assert!(matches!(items[2], JsonValue::Bool(true)));
            assert!(matches!(items[3], JsonValue::Null));
            assert!(matches!(items[4], JsonValue::OtherNumber));
        }
        _ => panic!("expected an array"),
    }
    assert!(matches!(v.get("b").and_then(|b| b.get("c")), Some(JsonValue::Int(-7))));
    assert!(v.get("z").is_none());
}

#[test]
fn setting_from_value() {
    let v = parse_json(&format!("{{\"name\":\"S\",\"items\":[{}]}}", member("M", Some(0)))).unwrap();
    let mut lookup = LifepathLookup::new();
    let s = read_setting_value(&mut lookup, &v).unwrap();
    assert_eq!(s.lifepaths(), &strings(&["M"]));
    let fresh = Setting::new("T".to_string());
    assert_eq!(fresh.name(), "T");
    assert!(fresh.lifepaths().is_empty());
}

#[test]
fn negative_counts_are_refused() {
    let negative = PEASANT.replace("\"time\":14", "\"time\":-1");
    match read_lifepath_list(&negative) {
        Err(e) => assert_eq!(e.message(), "Wrong type, expected non-negative int for time"),
        Ok(_) => panic!("expected an error"),
    }
    let negative = PEASANT.replace("\"traitPoints\":0", "\"traitPoints\":-3");
    assert!(matches!(read_lifepath_list(&negative), Err(LPPError::WrongType(_, k)) if k == "traitPoints"));
    let null_time = PEASANT.replace("\"time\":14", "\"time\":null");
    assert_eq!(read_lifepath_list(&null_time).unwrap()[0].time(), 0);
}

#[test]
fn empty_name_is_refused() {
    let unnamed = PEASANT.replace("\"name\":\"Peasant\"", "\"name\":\"\"");
    match read_lifepath_list(&unnamed) {
        Err(LPPError::WrongType(t, k)) => {
            assert_eq!(t, "non-empty String");
            assert_eq!(k, "name");
        }
        _ => panic!("expected a wrong type"),
    }
}

#[test]
fn setting_without_name_is_key_not_found() {
    let mut lookup = LifepathLookup::new();
    match read_setting(&mut lookup, "{\"items\": []}") {
        Err(LPPError::KeyNotFound(k)) => assert_eq!(k, "name"),
        _ => panic!("expected a missing key"),
    }
}

#[test]
fn settings_stop_at_first_bad_line() {
    let lines = vec![
        format!("{{\"name\":\"A\",\"items\":[{}]}}", member("P", None)),
        "not json".to_string(),
        format!("{{\"name\":\"C\",\"items\":[{}]}}", member("Q", None)),
    ];
    let mut lookup = LifepathLookup::new();
    assert!(matches!(parse_settings(&lines, &mut lookup), Err(LPPError::MalformedDocument)));
    assert!(lookup.get_lifepath("P", "A").is_some());
    assert!(lookup.get_lifepath("Q", "C").is_none());
}
