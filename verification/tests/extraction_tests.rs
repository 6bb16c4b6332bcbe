use rusttimeanddatedotcomparser::cache::urls_from;
use rusttimeanddatedotcomparser::parse_timeanddate_dot_com::{
    city_utc_offset, extract_time_data, get_city_id, parse_city_time_string, MarkupAttr,
    MarkupNode, UtcInstant,
};
use rusttimeanddatedotcomparser::time_and_date_data::{
    CityData, CityTimes, DayOfWeek, Sort, UtcOffset,
};

fn text(s: &str) -> MarkupNode {
    MarkupNode::Text { content: String::from(s) }
}

fn element(name: &str, attrs: Vec<(&str, &str)>, children: Vec<MarkupNode>) -> MarkupNode {
    MarkupNode::Element {
        name: String::from(name),
        attrs: attrs
            .into_iter()
            .map(|(n, v)| MarkupAttr { name: String::from(n), value: String::from(v) })
            .collect(),
        children,
    }
}

fn record(name: &str, offset_seconds: i32, sort: Sort) -> CityData {
    let mut c = CityData::default();
    c.name = String::from(name);
    c.utc_offset = UtcOffset::from_seconds(offset_seconds);
    c.sort = sort;
    c
}

/// Two id-correlated fragment pairs, with unrelated siblings interspersed,
/// yield exactly the two paired records plus the synthetic UTC entry.
#[test]
fn two_pair_extraction_test() {
    let utc = UtcInstant { weekday: DayOfWeek::Fri, hour: 23, minute: 30 };
    let tree = vec![
        element("div", vec![("class", "header")], vec![text("World clock")]),
        element(
            "td",
            vec![],
            vec![
                element(
                    "a",
                    vec![("href", "/worldclock/new-zealand/wellington")],
                    vec![text("Welling.ton")],
                ),
                element("span", vec![("id", "p10s"), ("class", "wds")], vec![text(" *")]),
            ],
        ),
        element("br", vec![], vec![]),
        element("td", vec![("id", "p10"), ("class", "rbi")], vec![text("Sun 12:30 p.m.")]),
        element(
            "td",
            vec![],
            vec![
                element("a", vec![("href", "/worldclock/samoa/apia")], vec![text("A.pia")]),
                element("span", vec![("id", "p11s")], vec![text(" ")]),
            ],
        ),
        element("script", vec![], vec![text("ignore();")]),
        element("td", vec![("id", "p11")], vec![text("Sat 1:15 a.m.")]),
    ];
    let data = extract_time_data(
        "https://www.timeanddate.com/worldclock/",
        &tree,
        Sort::ByName,
        &utc,
    );
    let records = data.city_times.records();
    assert_eq!(records.len(), 3);

    assert_eq!(records[0].name, "Apia");
    assert_eq!(records[0].url, "https://www.timeanddate.com/worldclock/samoa/apia");
    assert_eq!(records[0].time_string, "Sat 1:15 am");
    assert_eq!(records[0].utc_offset.to_display_string(), "+01:45");
    assert_eq!(records[0].is_dls, false);
    assert_eq!(records[0].id, 11);

    assert_eq!(records[1].name, "UTC");
    assert_eq!(records[1].url, "https://www.timeanddate.com/time/aboututc.html");
    assert_eq!(records[1].utc_offset.get(), 0);
    assert_eq!(records[1].id, -1);

    assert_eq!(records[2].name, "Wellington");
    assert_eq!(records[2].url, "https://www.timeanddate.com/worldclock/new-zealand/wellington");
    assert_eq!(records[2].time_string, "Sun 12:30 pm");
    assert_eq!(records[2].utc_offset.to_display_string(), "+13:00");
    assert_eq!(records[2].is_dls, true);
    assert_eq!(records[2].id, 10);
}

/// Two records sharing a name collapse to the first inserted one, for
/// both sort modes.
#[test]
fn dedup_by_name_test() {
    for sort in [Sort::ByName, Sort::ByOffset] {
        let mut times = CityTimes::new();
        times.insert(record("Lisbon", 0, sort));
        times.insert(record("Lisbon", 3600, sort));
        assert_eq!(times.len(), 1);
        assert_eq!(times.records()[0].utc_offset.get(), 0);
    }
}

#[test]
fn ordering_by_mode_test() {
    let mut by_name = CityTimes::new();
    by_name.insert(record("B", 0, Sort::ByName));
    by_name.insert(record("A", 3600, Sort::ByName));
    by_name.insert(record("C", -3600, Sort::ByName));
    let names: Vec<&str> = by_name.records().iter().map(|c| c.name.as_str()).collect();
    assert_eq!(names, vec!["A", "B", "C"]);

    let mut by_offset = CityTimes::new();
    by_offset.insert(record("B", 0, Sort::ByOffset));
    by_offset.insert(record("A", 3600, Sort::ByOffset));
    by_offset.insert(record("C", -3600, Sort::ByOffset));
    // `-` sorts after `+` in the display form, so negative offsets come last.
    let names: Vec<&str> = by_offset.records().iter().map(|c| c.name.as_str()).collect();
    assert_eq!(names, vec!["B", "A", "C"]);
}

#[test]
fn parse_city_time_string_test() {
    let parsed = parse_city_time_string(&String::from("Thu 9:05 pm")).unwrap();
    assert_eq!(parsed, (DayOfWeek::Thu, 21, 5));
    let parsed = parse_city_time_string(&String::from("Mon 12:04 am")).unwrap();
    assert_eq!(parsed, (DayOfWeek::Mon, 0, 4));
    let parsed = parse_city_time_string(&String::from("Sat 12:30 PM")).unwrap();
    assert_eq!(parsed, (DayOfWeek::Sat, 12, 30));
    // An unknown day name falls back to Sunday, as the page parser did.
    let parsed = parse_city_time_string(&String::from("xyz 1:00 am")).unwrap();
    assert_eq!(parsed, (DayOfWeek::Sun, 1, 0));
    // Malformed texts yield nothing instead of a half-read record.
    assert_eq!(parse_city_time_string(&String::from("abc")), None);
    assert_eq!(parse_city_time_string(&String::from("Thu 905 pm")), None);
    assert_eq!(parse_city_time_string(&String::from("Thu 9:75 pm")), None);
    assert_eq!(parse_city_time_string(&String::from("Thu 9:05")), None);
}

#[test]
fn city_id_test() {
    let attrs = vec![MarkupAttr { name: String::from("id"), value: String::from("p26s") }];
    assert_eq!(get_city_id(&attrs), Some(26));
    let attrs = vec![MarkupAttr { name: String::from("id"), value: String::from("p7") }];
    assert_eq!(get_city_id(&attrs), Some(7));
    let attrs = vec![MarkupAttr { name: String::from("id"), value: String::from("nav") }];
    assert_eq!(get_city_id(&attrs), None);
    let attrs = vec![MarkupAttr { name: String::from("class"), value: String::from("p26") }];
    assert_eq!(get_city_id(&attrs), None);
}

#[test]
fn offset_display_test() {
    assert_eq!(UtcOffset::from_seconds(13 * 3600).to_display_string(), "+13:00");
    assert_eq!(UtcOffset::from_seconds(-45 * 60).to_display_string(), "-00:45");
    assert_eq!(UtcOffset::from_seconds(0).to_display_string(), "+00:00");
    assert_eq!(UtcOffset::from_seconds(5 * 3600 + 45 * 60).to_display_string(), "+05:45");
}

#[test]
fn offset_parse_display_round_trip_test() {
    for seconds in [13 * 3600, -45 * 60, 0, 5 * 3600 + 45 * 60, -12 * 3600] {
        let shown = UtcOffset::from_seconds(seconds).to_display_string();
        let back = UtcOffset::from_display_string(shown.as_str()).unwrap();
        assert_eq!(back.get(), seconds);
    }
    assert_eq!(UtcOffset::from_display_string("13:00"), None);
    assert_eq!(UtcOffset::from_display_string("+13:75"), None);
}

/// A clock built a known number of minutes away from UTC resolves back
/// to that offset.
#[test]
fn offset_round_trip_sample_test() {
    let utc = UtcInstant { weekday: DayOfWeek::Fri, hour: 23, minute: 30 };
    // +13:00 crosses into the next day.
    assert_eq!(city_utc_offset(&(DayOfWeek::Sat, 12, 30), &utc).get(), 13 * 60 * 60);
    // -01:00 stays on the same day.
    assert_eq!(city_utc_offset(&(DayOfWeek::Fri, 22, 30), &utc).get(), -3600);
    // -02:00 crosses into the previous day when UTC is just past midnight.
    let early = UtcInstant { weekday: DayOfWeek::Fri, hour: 0, minute: 30 };
    assert_eq!(city_utc_offset(&(DayOfWeek::Thu, 22, 30), &early).get(), -2 * 3600);
}

#[test]
fn catalog_trimming_test() {
    let map = urls_from("  Europe  =  https://example.test/e  \nEurope=E2\nKey=\n=missing\n");
    // Keys and values are trimmed, and the later duplicate wins.
    assert_eq!(map.get("Europe"), Some(&String::from("E2")));
    // A line with nothing after `=` carries no entry.
    assert_eq!(map.get("Key"), None);
    // A line with an empty key still carries its value.
    assert_eq!(map.get(""), Some(&String::from("missing")));
    assert_eq!(map.len(), 2);
}

#[test]
fn day_of_week_test() {
    assert_eq!(DayOfWeek::from("mon"), DayOfWeek::Mon);
    assert_eq!(DayOfWeek::from("TUE"), DayOfWeek::Tue);
    assert_eq!(DayOfWeek::from("Wed"), DayOfWeek::Wed);
    assert_eq!(DayOfWeek::from("nothing"), DayOfWeek::Sun);
    assert_eq!(DayOfWeek::Sat.succ(), DayOfWeek::Sun);
    assert_eq!(DayOfWeek::Sun.succ(), DayOfWeek::Mon);
}
